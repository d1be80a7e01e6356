//! Which checkpoints a prune keeps.

use crate::action::{actions, Action, ActionView};
use crate::error::{Error, ErrorView};
use crate::path::{copy_name, names, FsPath, PathView};
use crate::store::{first_with, ids, Snap, Store, StoreView};
use vstd::prelude::*;

verus! {

/// What a prune did.
#[derive(Debug)]
pub struct PruneReport {
    /// The checkpoints that were dropped.
    pub removed: Vec<u64>,
    /// How many leftovers of restores and of broken-off steps were cleared.
    pub trash_cleared: usize,
}

/// What a prune is to do.
#[derive(Debug)]
pub struct PrunePlan {
    /// The checkpoints that stay in the journal.
    pub kept: Vec<Snap>,
    /// The checkpoints that are dropped; their trees go.
    pub removed: Vec<u64>,
}

/// How old `ts` is, at the time `now`; what is yet to come is not old at all.
pub open spec fn age(now: u64, ts: u64) -> u64 {
    if now >= ts {
        (now - ts) as u64
    } else {
        0
    }
}

/// Whether the checkpoint `id` is at most `max_age` old.
pub open spec fn is_young(snaps: Seq<Snap>, id: u64, now: u64, max_age: u64) -> bool {
    exists|i: int| #[trigger] first_with(snaps, id, i) && age(now, snaps[i].ts) <= max_age
}

/// The last `n`; all where there are no more than that.
pub open spec fn last_of<A>(s: Seq<A>, n: nat) -> Seq<A> {
    if s.len() > n {
        s.skip(s.len() - n)
    } else {
        s
    }
}

/// The numbers of the checkpoints that stay: of those that are not too old, the
/// newest.
pub open spec fn kept_ids(
    snaps: Seq<Snap>,
    now: u64,
    keep: Option<usize>,
    older_than_secs: Option<u64>,
) -> Seq<u64> {
    let young = match older_than_secs {
        Some(max_age) => ids(snaps).filter(|id: u64| is_young(snaps, id, now, max_age)),
        None => ids(snaps),
    };
    match keep {
        Some(n) => last_of(young, n as nat),
        None => young,
    }
}

fn id_is_young(snaps: &Vec<Snap>, id: u64, now: u64, max_age: u64) -> (r: bool)
    ensures
        r == is_young(snaps@, id, now, max_age),
{
    let mut i: usize = 0;
    while i < snaps.len()
        invariant
            i <= snaps@.len(),
            forall|k: int| 0 <= k < i ==> (#[trigger] snaps@[k]).id != id,
        decreases snaps@.len() - i,
    {
        if snaps[i].id == id {
            let young: bool = now.saturating_sub(snaps[i].ts) <= max_age;
            proof {
                assert(first_with(snaps@, id, i as int));
                if is_young(snaps@, id, now, max_age) {
                    let j = choose|j: int| #[trigger]
                        first_with(snaps@, id, j) && age(now, snaps@[j].ts) <= max_age;
                    assert(i == j) by {
                        if i < j {
                            assert(snaps@[i as int].id != id);
                        } else if j < i {
                            assert(snaps@[j].id != id);
                        }
                    }
                }
            }
            return young;
        }
        i += 1;
    }
    false
}

fn has_id(v: &Vec<u64>, id: u64) -> (r: bool)
    ensures
        r == v@.contains(id),
{
    let mut i: usize = 0;
    while i < v.len()
        invariant
            i <= v@.len(),
            forall|k: int| 0 <= k < i ==> v@[k] != id,
        decreases v@.len() - i,
    {
        if v[i] == id {
            return true;
        }
        i += 1;
    }
    false
}

/// The numbers of the checkpoints that are not too old.
fn young_ids(snaps: &Vec<Snap>, now: u64, older_than_secs: Option<u64>) -> (r: Vec<u64>)
    ensures
        r@ == match older_than_secs {
            Some(max_age) => ids(snaps@).filter(|id: u64| is_young(snaps@, id, now, max_age)),
            None => ids(snaps@),
        },
{
    let ghost all = ids(snaps@);
    let ghost stays = |id: u64|
        match older_than_secs {
            Some(max_age) => is_young(snaps@, id, now, max_age),
            None => true,
        };
    let mut r: Vec<u64> = Vec::new();
    let mut i: usize = 0;
    assert(all.take(0).filter(stays) =~= Seq::empty()) by {
        reveal_with_fuel(Seq::<_>::filter, 1);
    }
    while i < snaps.len()
        invariant
            i <= snaps@.len(),
            all == ids(snaps@),
            stays == (|id: u64|
                match older_than_secs {
                    Some(max_age) => is_young(snaps@, id, now, max_age),
                    None => true,
                }),
            r@ == all.take(i as int).filter(stays),
            older_than_secs is None ==> r@ == all.take(i as int),
        decreases snaps@.len() - i,
    {
        let id: u64 = snaps[i].id;
        proof {
            assert(all.take(i + 1) =~= all.take(i as int).push(id));
            all.take(i as int).lemma_filter_push(id, stays);
        }
        let stay: bool = match older_than_secs {
            Some(max_age) => id_is_young(snaps, id, now, max_age),
            None => true,
        };
        if stay {
            r.push(id);
        }
        i += 1;
    }
    assert(all.take(i as int) =~= all);
    if let Some(max_age) = older_than_secs {
        assert(stays =~= (|id: u64| is_young(snaps@, id, now, max_age)));
    }
    r
}

/// What a prune keeps and what it drops: of the checkpoints that are not older
/// than `older_than_secs`, the newest `keep` stay.
pub fn prune(
    snaps: Vec<Snap>,
    now: u64,
    keep: Option<usize>,
    older_than_secs: Option<u64>,
) -> (r: PrunePlan)
    ensures
        ({
            let stay = kept_ids(snaps@, now, keep, older_than_secs);
            &&& r.kept@ == snaps@.filter(|s: Snap| stay.contains(s.id))
            &&& r.removed@ == ids(snaps@.filter(|s: Snap| !stay.contains(s.id)))
        }),
{
    let ghost all = snaps@;
    let mut stay: Vec<u64> = young_ids(&snaps, now, older_than_secs);
    if let Some(n) = keep {
        let cutoff: usize = stay.len().saturating_sub(n);
        let ghost young = stay@;
        stay = stay.split_off(cutoff);
        assert(stay@ =~= last_of(young, n as nat));
    }
    let ghost stays = |s: Snap| stay@.contains(s.id);
    let ghost goes = |s: Snap| !stay@.contains(s.id);
    let mut kept: Vec<Snap> = Vec::new();
    let mut removed: Vec<u64> = Vec::new();
    proof {
        reveal_with_fuel(Seq::<_>::filter, 1);
        assert(all.take(0).filter(stays) =~= Seq::empty());
        assert(ids(all.take(0).filter(goes)) =~= Seq::empty());
    }
    for s in it: snaps
        invariant
            it.seq() == all,
            stays == (|s: Snap| stay@.contains(s.id)),
            goes == (|s: Snap| !stay@.contains(s.id)),
            kept@ == all.take(it.index()).filter(stays),
            removed@ == ids(all.take(it.index()).filter(goes)),
    {
        let ghost i = it.index();
        proof {
            assert(all.take(i + 1) =~= all.take(i).push(s));
            all.take(i).lemma_filter_push(s, stays);
            all.take(i).lemma_filter_push(s, goes);
        }
        if has_id(&stay, s.id) {
            kept.push(s);
        } else {
            removed.push(s.id);
            assert(removed@ =~= ids(all.take(i + 1).filter(goes)));
        }
    }
    assert(all.take(all.len() as int) =~= all);
    PrunePlan { kept, removed }
}

/// An age in hours, in seconds; one that is too great for that is as great as can be.
pub open spec fn hours_secs(h: u64) -> u64 {
    if h * 3600 <= u64::MAX {
        (h * 3600) as u64
    } else {
        u64::MAX
    }
}

/// The limits of a prune: at least one must be given, and the age in hours
/// counts in seconds.
pub fn prune_limits(keep: Option<usize>, older_than: Option<u64>) -> (r: Result<
    (Option<usize>, Option<u64>),
    Error,
>)
    ensures
        match r {
            Ok((n, secs)) => {
                &&& keep is Some || older_than is Some
                &&& n == keep
                &&& secs == match older_than {
                    Some(h) => Some(hours_secs(h)),
                    None => None,
                }
            },
            Err(e) => keep is None && older_than is None && e@ == ErrorView::NothingToPrune,
        },
{
    match older_than {
        Some(h) => {
            let secs: u64 = match h.checked_mul(3600) {
                Some(secs) => secs,
                None => u64::MAX,
            };
            Ok((keep, Some(secs)))
        },
        None => {
            if keep.is_none() {
                Err(Error::NothingToPrune)
            } else {
                Ok((keep, None))
            }
        },
    }
}

/// A limit in hours keeps what is at most that many hours old, however many they are.
pub proof fn hours_are_exact(now: u64, ts: u64, h: u64)
    ensures
        age(now, ts) <= hours_secs(h) <==> age(now, ts) as int <= h * 3600,
{
}

/// How many of the values are true.
pub open spec fn count_true(v: Seq<bool>) -> nat
    decreases v.len(),
{
    if v.len() == 0 {
        0
    } else {
        count_true(v.drop_last()) + if v.last() {
            1nat
        } else {
            0nat
        }
    }
}

/// How many of the values are true.
pub fn count(v: &Vec<bool>) -> (r: usize)
    ensures
        r == count_true(v@),
{
    let mut n: usize = 0;
    let mut i: usize = 0;
    assert(v@.take(0) =~= Seq::empty());
    while i < v.len()
        invariant
            i <= v@.len(),
            n == count_true(v@.take(i as int)),
            n <= i,
        decreases v@.len() - i,
    {
        assert(v@.take(i + 1).drop_last() =~= v@.take(i as int));
        if v[i] {
            n += 1;
        }
        i += 1;
    }
    assert(v@.take(i as int) =~= v@);
    n
}

impl PruneReport {
    /// What a prune did: `cleared` says of each leftover whether it could be removed.
    pub fn new(removed: Vec<u64>, cleared: &Vec<bool>) -> (r: PruneReport)
        ensures
            r.removed@ == removed@,
            r.trash_cleared == count_true(cleared@),
    {
        PruneReport { removed, trash_cleared: count(cleared) }
    }
}

/// Removes the trees of the checkpoints `removed`.
pub open spec fn prune_actions(store: StoreView, removed: Seq<u64>) -> Seq<ActionView> {
    removed.map_values(|id: u64| ActionView::Remove(store.tree(id)))
}

/// Clears the directory `dir`, whose entries are `listing`.
pub open spec fn clear_actions(dir: PathView, listing: Seq<Seq<u8>>) -> Seq<ActionView> {
    listing.map_values(|n: Seq<u8>| ActionView::Discard(dir.child(n)))
}

/// Clears the directory `dir`, whose entries are `listing`.
pub fn leftovers(dir: &FsPath, listing: &Vec<Vec<u8>>) -> (r: Vec<Action>)
    ensures
        actions(r@) == clear_actions(dir@, names(listing@)),
{
    let ghost all = names(listing@);
    let mut r: Vec<Action> = Vec::new();
    let mut i: usize = 0;
    assert(actions(r@) =~= clear_actions(dir@, all.take(0)));
    while i < listing.len()
        invariant
            i <= listing@.len(),
            all == names(listing@),
            actions(r@) == clear_actions(dir@, all.take(i as int)),
        decreases listing@.len() - i,
    {
        let ghost before = actions(r@);
        let a = Action::Discard(dir.child(copy_name(&listing[i])));
        r.push(a);
        proof {
            assert(actions(r@) =~= before.push(a@));
            assert(actions(r@) =~= clear_actions(dir@, all.take(i + 1)));
        }
        i += 1;
    }
    assert(all.take(i as int) =~= all);
    r
}

/// A step of a prune.
#[derive(Debug)]
pub enum PruneStep {
    /// Remove the tree of the checkpoint `id`.
    Remove { id: u64, tree: Action },
    /// Write the journal with the checkpoints that stay.
    Rewrite,
    /// Clear the directory.
    Clear(FsPath),
}

pub enum PruneStepView {
    Remove { id: u64, tree: ActionView },
    Rewrite,
    Clear(PathView),
}

impl View for PruneStep {
    type V = PruneStepView;

    open spec fn view(&self) -> PruneStepView {
        match *self {
            PruneStep::Remove { id, tree } => PruneStepView::Remove { id, tree: tree@ },
            PruneStep::Rewrite => PruneStepView::Rewrite,
            PruneStep::Clear(dir) => PruneStepView::Clear(dir@),
        }
    }
}

/// The views of a list of steps.
pub open spec fn steps(v: Seq<PruneStep>) -> Seq<PruneStepView> {
    v.map_values(|s: PruneStep| s@)
}

/// The steps that remove the trees of the checkpoints `removed`.
pub open spec fn remove_steps(store: StoreView, removed: Seq<u64>) -> Seq<PruneStepView> {
    removed.map_values(
        |id: u64| PruneStepView::Remove { id, tree: ActionView::Remove(store.tree(id)) },
    )
}

/// The steps of a prune, in order: the trees go before the journal is written, so
/// that one that cannot be removed stays in the journal; the leftovers go last.
pub open spec fn prune_steps(store: StoreView, removed: Seq<u64>) -> Seq<PruneStepView> {
    remove_steps(store, removed) + seq![
        PruneStepView::Rewrite,
        PruneStepView::Clear(store.trash_dir()),
        PruneStepView::Clear(store.tmp_dir()),
    ]
}

impl PrunePlan {
    /// The steps of the prune, in order.
    pub fn steps(&self, store: &Store) -> (r: Vec<PruneStep>)
        ensures
            steps(r@) == prune_steps(store@, self.removed@),
    {
        let ghost all = self.removed@;
        let mut r: Vec<PruneStep> = Vec::new();
        let mut i: usize = 0;
        assert(steps(r@) =~= remove_steps(store@, all.take(0)));
        while i < self.removed.len()
            invariant
                i <= self.removed@.len(),
                all == self.removed@,
                steps(r@) == remove_steps(store@, all.take(i as int)),
            decreases self.removed@.len() - i,
        {
            let ghost before = steps(r@);
            let id: u64 = self.removed[i];
            let step = PruneStep::Remove { id, tree: Action::Remove(store.tree(id)) };
            r.push(step);
            proof {
                assert(steps(r@) =~= before.push(step@));
                assert(steps(r@) =~= remove_steps(store@, all.take(i + 1)));
            }
            i += 1;
        }
        assert(all.take(i as int) =~= all);
        r.push(PruneStep::Rewrite);
        r.push(PruneStep::Clear(store.trash_dir()));
        r.push(PruneStep::Clear(store.tmp_dir()));
        assert(steps(r@) =~= prune_steps(store@, self.removed@));
        r
    }
}

} // verus!
