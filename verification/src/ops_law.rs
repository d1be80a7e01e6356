//! What is recorded of checkpoints, and what checkpoints and restores do, one by one.

use crate::action::ActionView;
use crate::number::decimal;
use crate::ops::{
    move_actions, restore_steps, skip_report, snap_actions, snap_steps, MetaView,
    RestoreStepView, SnapStepView, SwapView,
};
use crate::path::PathView;
use crate::store::{store_name, StoreView};
use vstd::prelude::*;
use vstd::utf8::encode_utf8;

verus! {

/// The record of a checkpoint keeps what was said of it, whoever said it, and adds its
/// number, its time, the git head, and what the clone came to.
pub proof fn record_keeps_what_was_said(
    m: MetaView,
    id: u64,
    ts: u64,
    git_head: Option<Seq<char>>,
    entries: u64,
    took_ms: u64,
)
    ensures
        ({
            let s = m.recorded(id, ts, git_head, entries, took_ms);
            &&& s.origin == m.origin
            &&& s.label == m.label
            &&& s.tool == m.tool
            &&& s.session == m.session
            &&& s.id == id
            &&& s.ts == ts
            &&& s.git_head == git_head
            &&& s.entries == Some(entries)
            &&& s.took_ms == Some(took_ms)
        }),
{
}

/// Two checkpoints are recorded alike only where the same was said of them.
pub proof fn records_tell_checkpoints_apart(
    m: MetaView,
    n: MetaView,
    id: u64,
    ts: u64,
    git_head: Option<Seq<char>>,
    entries: u64,
    took_ms: u64,
)
    requires
        m.recorded(id, ts, git_head, entries, took_ms) == n.recorded(
            id,
            ts,
            git_head,
            entries,
            took_ms,
        ),
    ensures
        m == n,
{
}

/// A checkpoint that no tool call and no session is behind says where it comes from and
/// what it is called, and nothing else.
pub proof fn plain_checkpoint_has_no_tool(origin: Seq<char>, label: Seq<char>, id: u64)
    ensures
        MetaView::plain(origin, label).origin == origin,
        MetaView::plain(origin, label).label == label,
        MetaView::plain(origin, label).tool is None,
        MetaView::plain(origin, label).session is None,
        MetaView::baseline() == MetaView::plain("baseline"@, "baseline (timefork init)"@),
        MetaView::pre_restore(id).origin == "pre-restore"@,
        MetaView::pre_restore(id).tool is None,
        MetaView::pre_restore(id).session is None,
        MetaView::pre_restore(id).label == "live state before restore to #"@ + decimal(id as nat),
{
}

/// The places where trees are made and where what is displaced goes have the number and
/// the process, or the time and the number, in their names.
pub proof fn places_are_named_by_their_numbers(store: StoreView, id: u64, pid: u32, now: u64)
    ensures
        store.snap_staging(id, pid) == store.tmp_dir().entry(
            "snap"@ + "-"@ + decimal(id as nat) + "-"@ + decimal(pid as nat),
        ),
        store.restore_staging(id, pid) == store.tmp_dir().entry(
            "restore"@ + "-"@ + decimal(id as nat) + "-"@ + decimal(pid as nat),
        ),
        store.trash(now, id) == store.trash_dir().entry(
            decimal(now as nat) + "-pre"@ + decimal(id as nat),
        ),
{
}

/// A checkpoint is made in three actions, recorded, and counted: what is in the way is
/// discarded, the workspace is cloned but for the store, and the clone is moved where
/// the tree is to be.
pub proof fn checkpoint_is_made_in_these_steps(store: StoreView, id: u64, pid: u32)
    ensures
        ({
            let all = snap_steps(store, id, pid);
            let place = store.snap_staging(id, pid);
            &&& all.len() == 5
            &&& all[0] == SnapStepView::Act(ActionView::Discard(place))
            &&& all[1] matches SnapStepView::Act(ActionView::Clone { src, dst, exclude })
            &&& src == store.root && dst == place
            &&& exclude.len() == 1 && exclude[0] == encode_utf8(".timefork"@)
            &&& all[2] == SnapStepView::Act(
                ActionView::Rename { from: place, to: store.tree(id) },
            )
            &&& all[3] == SnapStepView::Record
            &&& all[4] == SnapStepView::Number
        }),
        snap_actions(store, id, pid).len() == 3,
        forall|i: int|
            0 <= i < 3 ==> snap_steps(store, id, pid)[i] == SnapStepView::Act(
                #[trigger] snap_actions(store, id, pid)[i],
            ),
{
}

/// A restore first takes a checkpoint of the workspace, as one before a restore; only
/// after that is the workspace to be restored made, the old one moved out, and the new
/// one moved in.
pub proof fn restore_starts_with_a_checkpoint(id: u64)
    ensures
        restore_steps(id).len() == 4,
        restore_steps(id)[0] matches RestoreStepView::Checkpoint(m) && m.origin == "pre-restore"@
            && m.label == "live state before restore to #"@ + decimal(id as nat) && m.tool is None
            && m.session is None,
        restore_steps(id)[1] == RestoreStepView::Stage,
        restore_steps(id)[2] == RestoreStepView::MoveOut,
        restore_steps(id)[3] == RestoreStepView::MoveIn,
{
}

/// Moving entries takes each of them to the other directory, under its name, in order.
pub proof fn entries_are_moved_under_their_names(
    from: PathView,
    to: PathView,
    listing: Seq<Seq<u8>>,
)
    ensures
        move_actions(from, to, listing).len() == listing.len(),
        forall|i: int|
            0 <= i < listing.len() ==> #[trigger] move_actions(from, to, listing)[i]
                == (ActionView::Rename { from: from.child(listing[i]), to: to.child(listing[i]) }),
{
}

/// A restore works in the workspace, in its staging place and in its place in the trash;
/// it clones the tree of the checkpoint, all of it, and makes the place for what is
/// displaced.
pub proof fn restore_is_staged_in_these_actions(
    store: StoreView,
    id: u64,
    pre: u64,
    now: u64,
    pid: u32,
    tree: PathView,
)
    ensures
        ({
            let swap = SwapView::of(store, id, pre, now, pid);
            let all = swap.stage(tree);
            &&& swap.root == store.root
            &&& swap.staging == store.restore_staging(id, pid)
            &&& swap.trash == store.trash(now, pre)
            &&& all.len() == 3
            &&& all[0] == ActionView::Discard(swap.staging)
            &&& all[1] matches ActionView::Clone { src, dst, exclude }
            &&& src == tree && dst == swap.staging && exclude.len() == 0
            &&& all[2] == ActionView::MakeDir(swap.trash)
        }),
{
}

/// All of the workspace but the store is moved out, and nothing else; then all that was
/// staged is moved in, and the place where it was is dropped.
pub proof fn all_but_the_store_is_swapped(swap: SwapView, listing: Seq<Seq<u8>>, n: Seq<u8>)
    ensures
        swap.move_out(listing).contains(
            ActionView::Rename { from: swap.root.child(n), to: swap.trash.child(n) },
        ) <==> listing.contains(n) && n != encode_utf8(".timefork"@),
        forall|i: int|
            0 <= i < swap.move_out(listing).len() ==> (#[trigger] swap.move_out(listing)[i]
                is Rename),
        swap.move_in(listing).len() == listing.len() + 1,
        swap.move_in(listing).last() == ActionView::DropDir(swap.staging),
        forall|i: int|
            0 <= i < listing.len() ==> #[trigger] swap.move_in(listing)[i]
                == (ActionView::Rename {
                from: swap.staging.child(listing[i]),
                to: swap.root.child(listing[i]),
            }),
{
    let p = |n: Seq<u8>| n != store_name();
    let kept = listing.filter(p);
    let all = swap.move_out(listing);
    let a = ActionView::Rename { from: swap.root.child(n), to: swap.trash.child(n) };
    if all.contains(a) {
        let i = choose|i: int| 0 <= i < all.len() && all[i] == a;
        let m = kept[i];
        assert(all[i] == (ActionView::Rename {
            from: swap.root.child(m),
            to: swap.trash.child(m),
        }));
        assert(swap.root.child(m).parts.last() == m);
        assert(swap.root.child(n).parts.last() == n);
        assert(kept.contains(m));
        listing.lemma_filter_pred(p, i);
        listing.lemma_filter_contains_rev(p, m);
    }
    if listing.contains(n) && p(n) {
        let i = choose|i: int| 0 <= i < listing.len() && listing[i] == n;
        listing.lemma_filter_contains(p, i);
        let k = choose|k: int| 0 <= k < kept.len() && kept[k] == n;
        assert(all[k] == a);
    }
}

/// What a clone skipped is reported, with how much it is and the first of it, and
/// nothing is said where nothing was skipped.
pub proof fn skipped_entries_are_reported(skipped: Seq<PathView>)
    ensures
        skip_report(skipped) is None <==> skipped.len() == 0,
        skipped.len() > 0 ==> skip_report(skipped) == Some(
            "timefork: skipped "@ + decimal(skipped.len())
                + " uncloneable item(s) (sockets/fifos), e.g. "@ + skipped[0].shown(),
        ),
{
}

/// What is moved out of a workspace follows its listing: for each entry in turn there is
/// one move, under its name, and for the store there is none.
pub proof fn entries_are_moved_out_in_turn(swap: SwapView, listing: Seq<Seq<u8>>, n: Seq<u8>)
    ensures
        swap.move_out(Seq::empty()).len() == 0,
        n == encode_utf8(".timefork"@) ==> swap.move_out(listing.push(n)) == swap.move_out(
            listing,
        ),
        n != encode_utf8(".timefork"@) ==> swap.move_out(listing.push(n)) == swap.move_out(
            listing,
        ).push(ActionView::Rename { from: swap.root.child(n), to: swap.trash.child(n) }),
{
    let p = |n: Seq<u8>| n != store_name();
    assert(Seq::<Seq<u8>>::empty().filter(p).len() == 0) by {
        reveal_with_fuel(Seq::<_>::filter, 1);
    }
    listing.lemma_filter_push(n, p);
    let before = swap.move_out(listing);
    if p(n) {
        assert(swap.move_out(listing.push(n)) =~= before.push(
            ActionView::Rename { from: swap.root.child(n), to: swap.trash.child(n) },
        ));
    }
}

} // verus!
