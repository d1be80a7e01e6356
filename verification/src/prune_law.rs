//! What holds of every prune.

use crate::action::{after, after_all, content, without, ActionView};
use crate::disk::{
    lemma_below, lemma_only_dirs_hold, lemma_through, lists, rooted, within, Disk, Names,
};
use crate::effect::{lemma_without_rooted, same_at, through};
use crate::path::PathView;
use crate::place::{lemma_entries_apart, lemma_parts, lemma_same_content, trees_are_apart};
use crate::prune::{
    age, clear_actions, count_true, hours_are_exact, hours_secs, is_young, kept_ids, last_of,
    prune_actions, prune_steps, PruneStepView,
};
use crate::snap_law::{is_checkpoint, lemma_tree, sound};
use crate::store::{first_with, ids, store_name, Snap, StoreView};
use vstd::prelude::*;
use vstd::utf8::encode_utf8;

verus! {

/// What a prune keeps in the journal.
pub open spec fn kept(
    snaps: Seq<Snap>,
    now: u64,
    keep: Option<usize>,
    older_than_secs: Option<u64>,
) -> Seq<Snap> {
    snaps.filter(|s: Snap| kept_ids(snaps, now, keep, older_than_secs).contains(s.id))
}

/// Whether a checkpoint is not too old.
pub open spec fn young(now: u64, older_than_secs: Option<u64>) -> spec_fn(Snap) -> bool {
    |s: Snap|
        match older_than_secs {
            Some(max_age) => age(now, s.ts) <= max_age,
            None => true,
        }
}

/// The newest `keep`; all where there is no limit.
pub open spec fn newest(snaps: Seq<Snap>, keep: Option<usize>) -> Seq<Snap> {
    match keep {
        Some(n) => last_of(snaps, n as nat),
        None => snaps,
    }
}

/// Whether each number is greater than the one before it.
pub open spec fn increasing(v: Seq<u64>) -> bool {
    forall|i: int, j: int| 0 <= i < j < v.len() ==> v[i] < v[j]
}

proof fn lemma_filter_alike(s: Seq<Snap>, p: spec_fn(Snap) -> bool, q: spec_fn(Snap) -> bool)
    requires
        forall|i: int| 0 <= i < s.len() ==> p(#[trigger] s[i]) == q(s[i]),
    ensures
        s.filter(p) == s.filter(q),
    decreases s.len(),
{
    reveal_with_fuel(Seq::<_>::filter, 1);
    if s.len() > 0 {
        let t = s.drop_last();
        assert forall|i: int| 0 <= i < t.len() implies p(#[trigger] t[i]) == q(t[i]) by {
            assert(t[i] == s[i]);
        }
        lemma_filter_alike(t, p, q);
        assert(p(s[s.len() - 1]) == q(s[s.len() - 1]));
    }
}

proof fn lemma_filter_all(s: Seq<Snap>, p: spec_fn(Snap) -> bool)
    requires
        forall|i: int| 0 <= i < s.len() ==> p(#[trigger] s[i]),
    ensures
        s.filter(p) == s,
    decreases s.len(),
{
    reveal_with_fuel(Seq::<_>::filter, 1);
    if s.len() > 0 {
        let t = s.drop_last();
        assert forall|i: int| 0 <= i < t.len() implies p(#[trigger] t[i]) by {
            assert(t[i] == s[i]);
        }
        lemma_filter_all(t, p);
        assert(p(s[s.len() - 1]));
        assert(t.push(s.last()) =~= s);
    } else {
        assert(s.filter(p) =~= s);
    }
}

proof fn lemma_ids_of_filter(s: Seq<Snap>, pid: spec_fn(u64) -> bool, ps: spec_fn(Snap) -> bool)
    requires
        forall|i: int| 0 <= i < s.len() ==> pid((#[trigger] s[i]).id) == ps(s[i]),
    ensures
        ids(s).filter(pid) == ids(s.filter(ps)),
    decreases s.len(),
{
    reveal_with_fuel(Seq::<_>::filter, 1);
    if s.len() > 0 {
        let t = s.drop_last();
        assert forall|i: int| 0 <= i < t.len() implies pid((#[trigger] t[i]).id) == ps(t[i]) by {
            assert(t[i] == s[i]);
        }
        lemma_ids_of_filter(t, pid, ps);
        assert(ids(s).drop_last() =~= ids(t));
        assert(pid(s[s.len() - 1].id) == ps(s[s.len() - 1]));
        assert(ids(s).filter(pid) =~= ids(s.filter(ps)));
    } else {
        assert(ids(s).filter(pid) =~= ids(s.filter(ps)));
    }
}

proof fn lemma_filtered_id(s: Seq<Snap>, p: spec_fn(Snap) -> bool, id: u64)
    requires
        ids(s.filter(p)).contains(id),
    ensures
        ids(s).contains(id),
{
    let f = s.filter(p);
    let i = choose|i: int| 0 <= i < ids(f).len() && ids(f)[i] == id;
    assert(f.contains(f[i]));
    s.lemma_filter_contains_rev(p, f[i]);
    let k = choose|k: int| 0 <= k < s.len() && s[k] == f[i];
    assert(ids(s)[k] == id);
}

proof fn lemma_last_ids(s: Seq<Snap>, n: nat)
    ensures
        ids(last_of(s, n)) == last_of(ids(s), n),
        forall|id: u64| #[trigger] ids(last_of(s, n)).contains(id) ==> ids(s).contains(id),
{
    let l = last_of(s, n);
    assert(ids(l) =~= last_of(ids(s), n));
    let d = s.len() - l.len();
    assert forall|id: u64| #[trigger] ids(l).contains(id) implies ids(s).contains(id) by {
        let i = choose|i: int| 0 <= i < ids(l).len() && ids(l)[i] == id;
        assert(ids(s)[d + i] == id);
    }
}

proof fn lemma_distinct_front(s: Seq<Snap>)
    requires
        s.len() > 0,
        ids(s).no_duplicates(),
    ensures
        ids(s.drop_last()).no_duplicates(),
        !ids(s.drop_last()).contains(s.last().id),
{
    let t = s.drop_last();
    assert(ids(t) =~= ids(s).drop_last());
    if ids(t).contains(s.last().id) {
        let i = choose|i: int| 0 <= i < ids(t).len() && ids(t)[i] == s.last().id;
        assert(ids(s)[i] == ids(s)[s.len() - 1]);
    }
}

/// Picking the checkpoints with the numbers of the last `n` that satisfy `y`
/// picks these.
proof fn lemma_pick_last(s: Seq<Snap>, y: spec_fn(Snap) -> bool, n: nat)
    requires
        ids(s).no_duplicates(),
    ensures
        s.filter(|x: Snap| ids(last_of(s.filter(y), n)).contains(x.id)) == last_of(s.filter(y), n),
    decreases s.len(),
{
    reveal_with_fuel(Seq::<_>::filter, 1);
    let chosen = last_of(s.filter(y), n);
    let p = |x: Snap| ids(chosen).contains(x.id);
    if s.len() == 0 {
        assert(s.filter(p) =~= chosen);
        return;
    }
    let t = s.drop_last();
    let x = s.last();
    lemma_distinct_front(s);
    if y(x) && n > 0 {
        let m = (n - 1) as nat;
        let earlier = last_of(t.filter(y), m);
        let q = |z: Snap| ids(earlier).contains(z.id);
        lemma_pick_last(t, y, m);
        assert(s.filter(y) == t.filter(y).push(x));
        assert(chosen =~= earlier.push(x));
        assert(ids(chosen) =~= ids(earlier).push(x.id));
        assert forall|i: int| 0 <= i < t.len() implies p(#[trigger] t[i]) == q(t[i]) by {
            assert(ids(t)[i] == t[i].id);
            assert(t[i].id != x.id);
            if ids(earlier).contains(t[i].id) {
                let k = choose|k: int| 0 <= k < ids(earlier).len() && ids(earlier)[k] == t[i].id;
                assert(ids(chosen)[k] == t[i].id);
            }
        }
        lemma_filter_alike(t, p, q);
        assert(ids(chosen)[earlier.len() as int] == x.id);
        assert(p(x));
        assert(s.filter(p) == t.filter(p).push(x));
    } else if y(x) {
        assert(chosen =~= Seq::empty());
        lemma_pick_last(t, y, 0);
        let q = |z: Snap| ids(last_of(t.filter(y), 0)).contains(z.id);
        assert(last_of(t.filter(y), 0) =~= Seq::empty());
        lemma_filter_alike(t, p, q);
        assert(s.filter(p) =~= chosen);
    } else {
        assert(s.filter(y) == t.filter(y));
        lemma_pick_last(t, y, n);
        lemma_last_ids(t.filter(y), n);
        if p(x) {
            lemma_filtered_id(t, y, x.id);
        }
    }
}

proof fn lemma_young_ids(snaps: Seq<Snap>, now: u64, older_than_secs: Option<u64>)
    requires
        ids(snaps).no_duplicates(),
    ensures
        kept_ids(snaps, now, None, older_than_secs) == ids(
            snaps.filter(young(now, older_than_secs)),
        ),
{
    let y = young(now, older_than_secs);
    match older_than_secs {
        Some(max_age) => {
            let pid = |id: u64| is_young(snaps, id, now, max_age);
            assert forall|i: int| 0 <= i < snaps.len() implies pid((#[trigger] snaps[i]).id) == y(
                snaps[i],
            ) by {
                assert(ids(snaps)[i] == snaps[i].id);
                assert(first_with(snaps, snaps[i].id, i)) by {
                    assert forall|k: int| 0 <= k < i implies (#[trigger] snaps[k]).id
                        != snaps[i].id by {
                        assert(ids(snaps)[k] != ids(snaps)[i]);
                    }
                }
                if pid(snaps[i].id) {
                    let j = choose|j: int| #[trigger]
                        first_with(snaps, snaps[i].id, j) && age(now, snaps[j].ts) <= max_age;
                    assert(ids(snaps)[j] == ids(snaps)[i]);
                }
            }
            lemma_ids_of_filter(snaps, pid, y);
        },
        None => {
            lemma_filter_all(snaps, y);
        },
    }
}

/// Where no number comes twice, a prune keeps the newest of the checkpoints that
/// are not too old, in their order.
pub proof fn prune_keeps_newest_of_young(
    snaps: Seq<Snap>,
    now: u64,
    keep: Option<usize>,
    older_than_secs: Option<u64>,
)
    requires
        ids(snaps).no_duplicates(),
    ensures
        kept(snaps, now, keep, older_than_secs) == newest(
            snaps.filter(young(now, older_than_secs)),
            keep,
        ),
{
    let y = young(now, older_than_secs);
    let f = snaps.filter(y);
    lemma_young_ids(snaps, now, older_than_secs);
    let n = match keep {
        Some(n) => n as nat,
        None => f.len(),
    };
    lemma_last_ids(f, n);
    lemma_pick_last(snaps, y, n);
    assert(kept_ids(snaps, now, keep, older_than_secs) == ids(last_of(f, n)));
    assert((|s: Snap| kept_ids(snaps, now, keep, older_than_secs).contains(s.id)) =~= (|x: Snap|
        ids(last_of(f, n)).contains(x.id)));
}

/// Where no number comes twice, a prune by count alone keeps exactly the newest
/// checkpoints.
pub proof fn prune_by_count_keeps_the_last(snaps: Seq<Snap>, now: u64, n: usize)
    requires
        ids(snaps).no_duplicates(),
    ensures
        kept(snaps, now, Some(n), None) == last_of(snaps, n as nat),
{
    prune_keeps_newest_of_young(snaps, now, Some(n), None);
    lemma_filter_all(snaps, young(now, None));
}

/// Where no number comes twice, a prune by age alone keeps exactly the checkpoints
/// that are at most so many hours old, however many hours these are.
pub proof fn prune_by_hours_keeps_the_younger(snaps: Seq<Snap>, now: u64, hours: u64)
    requires
        ids(snaps).no_duplicates(),
    ensures
        kept(snaps, now, None, Some(hours_secs(hours))) == snaps.filter(
            |s: Snap| age(now, s.ts) as int <= hours * 3600,
        ),
{
    let secs = Some(hours_secs(hours));
    prune_keeps_newest_of_young(snaps, now, None, secs);
    assert forall|i: int| 0 <= i < snaps.len() implies young(now, secs)(#[trigger] snaps[i]) == (
    age(now, snaps[i].ts) as int <= hours * 3600) by {
        hours_are_exact(now, snaps[i].ts, hours);
    }
    lemma_filter_alike(
        snaps,
        young(now, secs),
        |s: Snap| age(now, s.ts) as int <= hours * 3600,
    );
}

/// Each checkpoint is either kept or dropped.
pub proof fn prune_parts_the_journal(
    snaps: Seq<Snap>,
    now: u64,
    keep: Option<usize>,
    older_than_secs: Option<u64>,
    s: Snap,
)
    requires
        snaps.contains(s),
    ensures
        ({
            let stay = kept_ids(snaps, now, keep, older_than_secs);
            let removed = ids(snaps.filter(|x: Snap| !stay.contains(x.id)));
            kept(snaps, now, keep, older_than_secs).contains(s) == !removed.contains(s.id)
        }),
{
    let stay = kept_ids(snaps, now, keep, older_than_secs);
    let stays = |x: Snap| stay.contains(x.id);
    let goes = |x: Snap| !stay.contains(x.id);
    let gone = snaps.filter(goes);
    let held = snaps.filter(stays);
    let i = choose|i: int| 0 <= i < snaps.len() && snaps[i] == s;
    if stay.contains(s.id) {
        snaps.lemma_filter_contains(stays, i);
        if ids(gone).contains(s.id) {
            let k = choose|k: int| 0 <= k < ids(gone).len() && ids(gone)[k] == s.id;
            snaps.lemma_filter_pred(goes, k);
        }
    } else {
        snaps.lemma_filter_contains(goes, i);
        let k = choose|k: int| 0 <= k < gone.len() && gone[k] == s;
        assert(ids(gone)[k] == s.id);
        if held.contains(s) {
            let k = choose|k: int| 0 <= k < held.len() && held[k] == s;
            snaps.lemma_filter_pred(stays, k);
        }
    }
}

/// Pruning again, at the same time and by the same limits, drops nothing more.
pub proof fn prune_again_drops_nothing(
    snaps: Seq<Snap>,
    now: u64,
    keep: Option<usize>,
    older_than_secs: Option<u64>,
)
    requires
        increasing(ids(snaps)),
    ensures
        ({
            let once = kept(snaps, now, keep, older_than_secs);
            kept(once, now, keep, older_than_secs) == once
        }),
{
    let y = young(now, older_than_secs);
    let f = snaps.filter(y);
    let once = kept(snaps, now, keep, older_than_secs);
    prune_keeps_newest_of_young(snaps, now, keep, older_than_secs);
    prune_keeps_order(snaps, now, keep, older_than_secs);
    assert forall|i: int| 0 <= i < once.len() implies y(#[trigger] once[i]) by {
        let d = f.len() - once.len();
        assert(once[i] == f[d + i]);
        snaps.lemma_filter_pred(y, d + i);
    }
    lemma_filter_all(once, y);
    prune_keeps_newest_of_young(once, now, keep, older_than_secs);
}

proof fn lemma_filter_increasing(s: Seq<Snap>, p: spec_fn(Snap) -> bool)
    requires
        increasing(ids(s)),
    ensures
        increasing(ids(s.filter(p))),
    decreases s.len(),
{
    reveal_with_fuel(Seq::<_>::filter, 1);
    if s.len() > 0 {
        let t = s.drop_last();
        assert(ids(t) =~= ids(s).drop_last());
        lemma_filter_increasing(t, p);
        let f = t.filter(p);
        if p(s.last()) {
            let g = s.filter(p);
            assert(g == f.push(s.last()));
            assert forall|i: int, j: int| 0 <= i < j < ids(g).len() implies ids(g)[i] < ids(g)[j] by {
                if j == f.len() {
                    assert(ids(f)[i] == f[i].id);
                    assert(ids(f).contains(f[i].id));
                    lemma_filtered_id(t, p, f[i].id);
                    let k = choose|k: int| 0 <= k < ids(t).len() && ids(t)[k] == f[i].id;
                    assert(ids(s)[k] < ids(s)[s.len() - 1]);
                } else {
                    assert(ids(f)[i] < ids(f)[j]);
                }
            }
        }
    }
}

/// A prune keeps the numbers in the journal in increasing order.
pub proof fn prune_keeps_order(
    snaps: Seq<Snap>,
    now: u64,
    keep: Option<usize>,
    older_than_secs: Option<u64>,
)
    requires
        increasing(ids(snaps)),
    ensures
        increasing(ids(kept(snaps, now, keep, older_than_secs))),
{
    lemma_filter_increasing(
        snaps,
        |s: Snap| kept_ids(snaps, now, keep, older_than_secs).contains(s.id),
    );
}

/// Whether the numbers of the checkpoints grow, and the next one is greater.
pub open spec fn numbered(snaps: Seq<Snap>, next: u64) -> bool {
    increasing(ids(snaps)) && forall|i: int| 0 <= i < snaps.len() ==> (#[trigger] snaps[i]).id < next
}

/// A checkpoint that takes the next number keeps the numbers growing, and is the
/// one that its number finds.
pub proof fn snap_keeps_numbers(snaps: Seq<Snap>, next: u64, s: Snap)
    requires
        numbered(snaps, next),
        s.id == next,
        next < u64::MAX,
    ensures
        numbered(snaps.push(s), (next + 1) as u64),
        first_with(snaps.push(s), s.id, snaps.len() as int),
{
    let all = snaps.push(s);
    assert forall|i: int, j: int| 0 <= i < j < ids(all).len() implies ids(all)[i] < ids(all)[j] by {
        if j < snaps.len() {
            assert(ids(snaps)[i] < ids(snaps)[j]);
        } else {
            assert(snaps[i].id < next);
        }
    }
}

/// A prune keeps the numbers growing.
pub proof fn prune_keeps_numbers(
    snaps: Seq<Snap>,
    next: u64,
    now: u64,
    keep: Option<usize>,
    older_than_secs: Option<u64>,
)
    requires
        numbered(snaps, next),
    ensures
        numbered(kept(snaps, now, keep, older_than_secs), next),
{
    let p = |s: Snap| kept_ids(snaps, now, keep, older_than_secs).contains(s.id);
    let f = snaps.filter(p);
    prune_keeps_order(snaps, now, keep, older_than_secs);
    assert forall|i: int| 0 <= i < f.len() implies (#[trigger] f[i]).id < next by {
        assert(f.contains(f[i]));
        snaps.lemma_filter_contains_rev(p, f[i]);
        let k = choose|k: int| 0 <= k < snaps.len() && snaps[k] == f[i];
        assert(snaps[k].id < next);
    }
}

/// Removing and discarding only take away what is at their paths or below.
proof fn lemma_removals(d: Disk, all: Seq<ActionView>, gone: spec_fn(Names) -> bool)
    requires
        rooted(d),
        forall|i: int| 0 <= i < all.len() ==> removes(#[trigger] all[i], gone),
    ensures
        rooted(after_all(d, all)),
        forall|p: Names| #[trigger] after_all(d, all).contains_key(p) ==> d.contains_key(p)
            && after_all(d, all)[p] == d[p],
        forall|p: Names| !gone(p) ==> same_at(d, #[trigger] after_all(d, all), p),
    decreases all.len(),
{
    if all.len() > 0 {
        let front = all.drop_last();
        assert forall|i: int| 0 <= i < front.len() implies removes(#[trigger] front[i], gone) by {
            assert(front[i] == all[i]);
        }
        lemma_removals(d, front, gone);
        let e = after_all(d, front);
        assert(removes(all[all.len() - 1], gone));
        let base = match all.last() {
            ActionView::Discard(p) => p.parts,
            ActionView::Remove(p) => p.parts,
            _ => Seq::empty(),
        };
        assert(after_all(d, all) == without(e, base));
        lemma_without_rooted(e, base);
        assert forall|p: Names| !gone(p) implies same_at(d, #[trigger] after_all(d, all), p) by {
            assert(same_at(d, e, p));
        }
    }
}

/// Whether an action removes a path, and only what may be gone lies there.
spec fn removes(a: ActionView, gone: spec_fn(Names) -> bool) -> bool {
    match a {
        ActionView::Discard(b) | ActionView::Remove(b) => forall|p: Names|
            within(p, b.parts) ==> #[trigger] gone(p),
        _ => false,
    }
}

/// The disk after a prune that drops the checkpoints `removed`, where `trash` and
/// `tmp` are the entries of the directories that it clears.
pub open spec fn pruned(
    store: StoreView,
    d: Disk,
    removed: Seq<u64>,
    trash: Seq<Seq<u8>>,
    tmp: Seq<Seq<u8>>,
) -> Disk {
    let d1 = after_all(d, prune_actions(store, removed));
    let d2 = after_all(d1, clear_actions(store.trash_dir(), trash));
    after_all(d2, clear_actions(store.tmp_dir(), tmp))
}

/// Whether `p` is in one of the trees, or in the directory for leftovers `part`.
spec fn may_go(store: StoreView, removed: Seq<u64>, part: Names, p: Names) -> bool {
    ||| exists|i: int| 0 <= i < removed.len() && #[trigger] in_tree(store, removed[i], p)
    ||| within(p, part) && p != part
}

spec fn in_tree(store: StoreView, id: u64, p: Names) -> bool {
    within(p, store.tree(id).parts)
}

proof fn lemma_pruned(
    store: StoreView,
    d: Disk,
    removed: Seq<u64>,
    trash: Seq<Seq<u8>>,
    tmp: Seq<Seq<u8>>,
)
    requires
        rooted(d),
    ensures
        ({
            let e = pruned(store, d, removed, trash, tmp);
            &&& rooted(e)
            &&& forall|p: Names| #[trigger]
                e.contains_key(p) ==> d.contains_key(p) && e[p] == d[p]
            &&& forall|p: Names|
                !may_go(store, removed, store.trash_dir().parts, p) && !may_go(
                    store,
                    removed,
                    store.tmp_dir().parts,
                    p,
                ) ==> #[trigger] same_at(d, e, p)
        }),
{
    let a = prune_actions(store, removed);
    let b = clear_actions(store.trash_dir(), trash);
    let c = clear_actions(store.tmp_dir(), tmp);
    let x = store.trash_dir().parts;
    let y = store.tmp_dir().parts;
    let gone = |p: Names| may_go(store, removed, x, p) || may_go(store, removed, y, p);
    assert forall|i: int| 0 <= i < a.len() implies removes(#[trigger] a[i], gone) by {
        assert forall|p: Names| within(p, store.tree(removed[i]).parts) implies #[trigger] gone(
            p,
        ) by {
            assert(in_tree(store, removed[i], p));
        }
    }
    assert forall|i: int| 0 <= i < b.len() implies removes(#[trigger] b[i], gone) by {
        assert forall|p: Names| within(p, x.push(trash[i])) implies #[trigger] gone(p) by {
            lemma_through(p, x, trash[i]);
        }
    }
    assert forall|i: int| 0 <= i < c.len() implies removes(#[trigger] c[i], gone) by {
        assert forall|p: Names| within(p, y.push(tmp[i])) implies #[trigger] gone(p) by {
            lemma_through(p, y, tmp[i]);
        }
    }
    let d1 = after_all(d, a);
    let d2 = after_all(d1, b);
    let e = after_all(d2, c);
    lemma_removals(d, a, gone);
    lemma_removals(d1, b, gone);
    lemma_removals(d2, c, gone);
    assert forall|p: Names| #[trigger] e.contains_key(p) implies d.contains_key(p) && e[p] == d[p] by {
        assert(d2.contains_key(p));
        assert(d1.contains_key(p));
    }
    assert forall|p: Names| !may_go(store, removed, x, p) && !may_go(store, removed, y, p) implies #[trigger] same_at(
        d,
        e,
        p,
    ) by {
        assert(!gone(p));
        assert(same_at(d, d1, p));
        assert(same_at(d1, d2, p));
        assert(same_at(d2, e, p));
    }
}

/// A prune changes nothing outside the store.
pub proof fn prune_touches_only_the_store(
    store: StoreView,
    d: Disk,
    removed: Seq<u64>,
    trash: Seq<Seq<u8>>,
    tmp: Seq<Seq<u8>>,
    p: Names,
)
    requires
        store.placed(),
        rooted(d),
        !within(p, store.dir.parts),
    ensures
        same_at(d, pruned(store, d, removed, trash, tmp), p),
{
    let s = store.dir.parts;
    lemma_parts(store);
    lemma_pruned(store, d, removed, trash, tmp);
    assert forall|part: Seq<u8>| within(p, #[trigger] s.push(part)) implies false by {
        lemma_through(p, s, part);
    }
    assert forall|i: int| 0 <= i < removed.len() implies !#[trigger] in_tree(store, removed[i], p) by {
        if in_tree(store, removed[i], p) {
            lemma_tree(store, removed[i], p);
        }
    }
}

/// A prune leaves the checkpoints that it does not drop as they are.
pub proof fn prune_keeps_checkpoints(
    store: StoreView,
    d: Disk,
    removed: Seq<u64>,
    trash: Seq<Seq<u8>>,
    tmp: Seq<Seq<u8>>,
    id: u64,
)
    requires
        store.placed(),
        rooted(d),
        !removed.contains(id),
    ensures
        content(pruned(store, d, removed, trash, tmp), store.tree(id).parts) == content(
            d,
            store.tree(id).parts,
        ),
{
    let s = store.dir.parts;
    let e = pruned(store, d, removed, trash, tmp);
    let base = store.tree(id).parts;
    lemma_parts(store);
    lemma_pruned(store, d, removed, trash, tmp);
    assert forall|p: Names| within(p, base) implies #[trigger] same_at(d, e, p) by {
        lemma_tree(store, id, p);
        if within(p, store.trash_dir().parts) {
            lemma_entries_apart(p, s, encode_utf8("trees"@), encode_utf8("trash"@));
        }
        if within(p, store.tmp_dir().parts) {
            lemma_entries_apart(p, s, encode_utf8("trees"@), encode_utf8("tmp"@));
        }
        assert forall|i: int| 0 <= i < removed.len() implies !#[trigger] in_tree(
            store,
            removed[i],
            p,
        ) by {
            if in_tree(store, removed[i], p) {
                trees_are_apart(store, id, removed[i], p);
                assert(removed[i] == id);
            }
        }
    }
    lemma_same_content(d, e, base);
}

/// A prune removes the trees of the checkpoints that it drops.
pub proof fn prune_removes_trees(
    store: StoreView,
    d: Disk,
    removed: Seq<u64>,
    trash: Seq<Seq<u8>>,
    tmp: Seq<Seq<u8>>,
    id: u64,
)
    requires
        rooted(d),
        removed.contains(id),
    ensures
        !pruned(store, d, removed, trash, tmp).contains_key(store.tree(id).parts),
{
    let all = prune_actions(store, removed);
    let i = choose|i: int| 0 <= i < removed.len() && removed[i] == id;
    let base = store.tree(id).parts;
    let gone = |p: Names| true;
    assert(base.take(base.len() as int) =~= base);
    let head = all.take(i + 1);
    assert(head.drop_last() =~= all.take(i));
    assert(head.last() == ActionView::Remove(store.tree(id)));
    assert(!after_all(d, head).contains_key(base));
    lemma_stays_gone(d, all, i + 1, base);
    let d1 = after_all(d, all);
    let b = clear_actions(store.trash_dir(), trash);
    let c = clear_actions(store.tmp_dir(), tmp);
    lemma_removals(d, all, gone);
    lemma_removals(d1, b, gone);
    lemma_removals(after_all(d1, b), c, gone);
}

/// What removals removed stays away.
proof fn lemma_stays_gone(d: Disk, all: Seq<ActionView>, i: int, p: Names)
    requires
        0 <= i <= all.len(),
        forall|k: int| 0 <= k < all.len() ==> (#[trigger] all[k] is Remove),
        !after_all(d, all.take(i)).contains_key(p),
    ensures
        !after_all(d, all).contains_key(p),
    decreases all.len(),
{
    if i == all.len() {
        assert(all.take(i) =~= all);
    } else {
        let front = all.drop_last();
        assert(front.take(i) =~= all.take(i));
        assert forall|k: int| 0 <= k < front.len() implies (#[trigger] front[k] is Remove) by {
            assert(front[k] == all[k]);
        }
        lemma_stays_gone(d, front, i, p);
        assert(all[all.len() - 1] is Remove);
    }
}

/// A prune keeps the store sound.
pub proof fn prune_keeps_the_store_sound(
    store: StoreView,
    d: Disk,
    removed: Seq<u64>,
    trash: Seq<Seq<u8>>,
    tmp: Seq<Seq<u8>>,
    next: u64,
)
    requires
        sound(store, d, next),
    ensures
        sound(store, pruned(store, d, removed, trash, tmp), next),
{
    let s = store.dir.parts;
    let e = pruned(store, d, removed, trash, tmp);
    lemma_parts(store);
    lemma_pruned(store, d, removed, trash, tmp);
    assert(same_at(d, e, store.root.parts)) by {
        lemma_short_stays(store, removed, store.root.parts);
    }
    assert(same_at(d, e, s)) by {
        lemma_short_stays(store, removed, s);
    }
    assert forall|part: Seq<u8>| same_at(d, e, #[trigger] s.push(part)) by {
        lemma_short_stays(store, removed, s.push(part));
    }
    assert forall|id: u64| is_checkpoint(content(e, (#[trigger] store.tree(id)).parts)) by {
        let (x, y) = (content(e, store.tree(id).parts), content(d, store.tree(id).parts));
        assert forall|q: Names| #[trigger] x.contains_key(q) implies !(x[q] is Other) && (q.len() > 0
            ==> q[0] != store_name()) by {
            assert(e.contains_key(store.tree(id).parts + q));
            assert(y.contains_key(q));
        }
    }
}

proof fn lemma_short_stays(store: StoreView, removed: Seq<u64>, p: Names)
    requires
        store.placed(),
        p.len() <= store.dir.parts.len() + 1,
    ensures
        !may_go(store, removed, store.trash_dir().parts, p),
        !may_go(store, removed, store.tmp_dir().parts, p),
{
    lemma_parts(store);
    assert forall|i: int| 0 <= i < removed.len() implies !#[trigger] in_tree(store, removed[i], p) by {
        if in_tree(store, removed[i], p) {
            lemma_tree(store, removed[i], p);
        }
    }
    assert forall|part: Names| part.len() == store.dir.parts.len() + 1 && #[trigger] within(p, part) implies p
        == part by {
        assert(p.take(part.len() as int) =~= part);
        assert(p.take(part.len() as int) =~= p);
    }
}

/// Clearing entries of a directory leaves nothing of them.
proof fn lemma_cleared(d: Disk, dir: PathView, listing: Seq<Seq<u8>>)
    ensures
        forall|p: Names| #[trigger]
            after_all(d, clear_actions(dir, listing)).contains_key(p) ==> d.contains_key(p)
                && !through(p, dir.parts, listing),
    decreases listing.len(),
{
    let all = clear_actions(dir, listing);
    if listing.len() > 0 {
        let front = listing.drop_last();
        let n = listing.last();
        assert(all.drop_last() =~= clear_actions(dir, front));
        lemma_cleared(d, dir, front);
        assert forall|p: Names| #[trigger] after_all(d, all).contains_key(p) implies d.contains_key(
            p,
        ) && !through(p, dir.parts, listing) by {
            assert(after_all(d, all.drop_last()).contains_key(p));
            if through(p, dir.parts, listing) {
                let k = p[dir.parts.len() as int];
                let i = choose|i: int| 0 <= i < listing.len() && listing[i] == k;
                if i < front.len() {
                    assert(front[i] == k);
                } else {
                    lemma_below(p, dir.parts);
                }
            }
        }
    }
}

/// A prune that lists the directories for leftovers as they are clears them.
pub proof fn prune_clears_leftovers(
    store: StoreView,
    d: Disk,
    removed: Seq<u64>,
    trash: Seq<Seq<u8>>,
    tmp: Seq<Seq<u8>>,
    p: Names,
)
    requires
        rooted(d),
        lists(d, store.trash_dir().parts, trash),
        lists(d, store.tmp_dir().parts, tmp),
        pruned(store, d, removed, trash, tmp).contains_key(p),
    ensures
        within(p, store.trash_dir().parts) ==> p == store.trash_dir().parts,
        within(p, store.tmp_dir().parts) ==> p == store.tmp_dir().parts,
{
    lemma_pruned(store, d, removed, trash, tmp);
    let d1 = after_all(d, prune_actions(store, removed));
    let d2 = after_all(d1, clear_actions(store.trash_dir(), trash));
    lemma_cleared(d1, store.trash_dir(), trash);
    lemma_cleared(d2, store.tmp_dir(), tmp);
    assert(d2.contains_key(p));
    assert(d.contains_key(p));
    let (x, y) = (store.trash_dir().parts, store.tmp_dir().parts);
    if within(p, x) && p != x {
        lemma_below(p, x);
        lemma_entry_there(d, x, p);
    }
    if within(p, y) && p != y {
        lemma_below(p, y);
        lemma_entry_there(d, y, p);
    }
}

proof fn lemma_entry_there(d: Disk, dir: Names, p: Names)
    requires
        rooted(d),
        d.contains_key(p),
        within(p, dir),
        p != dir,
    ensures
        d.contains_key(dir.push(p[dir.len() as int])),
{
    lemma_below(p, dir);
    let q = dir.push(p[dir.len() as int]);
    if p != q {
        lemma_only_dirs_hold(d, q, p);
    }
}

/// How old a checkpoint is counts in seconds, and one from the future is not old at all.
pub proof fn age_is_the_time_that_passed(now: u64, ts: u64)
    ensures
        now >= ts ==> age(now, ts) == now - ts,
        now <= ts ==> age(now, ts) == 0,
{
}

/// A limit in hours is that many times 3600 seconds, as far as seconds can be counted.
pub proof fn hour_has_its_seconds(h: u64, secs: u64)
    ensures
        secs <= hours_secs(h) <==> secs as int <= h * 3600,
{
}

/// The last of a list are its end: as many as are asked for, or all.
pub proof fn last_are_the_end<A>(s: Seq<A>, n: nat)
    ensures
        last_of(s, n).len() == if n < s.len() {
            n
        } else {
            s.len()
        },
        last_of(s, n) == s.skip(s.len() - last_of(s, n).len()),
{
    assert(s.skip(0) =~= s);
}

/// How many values are true is counted one by one.
pub proof fn true_values_are_counted(v: Seq<bool>, b: bool)
    ensures
        count_true(Seq::empty()) == 0,
        count_true(v.push(b)) == count_true(v) + if b {
            1int
        } else {
            0int
        },
{
    assert(v.push(b).drop_last() =~= v);
}

/// A prune by age alone keeps a checkpoint if and only if the first with its number is
/// at most so many seconds old.
pub proof fn prune_by_age_drops_the_older(
    snaps: Seq<Snap>,
    now: u64,
    max_age: u64,
    i: int,
    j: int,
)
    requires
        0 <= i < snaps.len(),
        first_with(snaps, snaps[i].id, j),
    ensures
        kept(snaps, now, None, Some(max_age)).contains(snaps[i]) <==> now - snaps[j].ts <= max_age,
{
    let id = snaps[i].id;
    let young_id = |x: u64| is_young(snaps, x, now, max_age);
    let stay = kept_ids(snaps, now, None, Some(max_age));
    let p = |s: Snap| stay.contains(s.id);
    let held = snaps.filter(p);
    assert(is_young(snaps, id, now, max_age) <==> now - snaps[j].ts <= max_age) by {
        if is_young(snaps, id, now, max_age) {
            let k = choose|k: int| #[trigger]
                first_with(snaps, id, k) && age(now, snaps[k].ts) <= max_age;
            if k < j {
                assert(snaps[k].id != id);
            } else if j < k {
                assert(snaps[j].id != id);
            }
        }
    }
    assert(ids(snaps)[i] == id);
    if young_id(id) {
        ids(snaps).lemma_filter_contains(young_id, i);
        snaps.lemma_filter_contains(p, i);
    } else if held.contains(snaps[i]) {
        let k = choose|k: int| 0 <= k < held.len() && held[k] == snaps[i];
        snaps.lemma_filter_pred(p, k);
        let m = choose|m: int| 0 <= m < stay.len() && stay[m] == id;
        ids(snaps).lemma_filter_pred(young_id, m);
    }
}

/// A prune by count alone keeps every checkpoint whose number is among the last so many
/// in the journal, and no other.
pub proof fn prune_by_count_drops_the_earlier(snaps: Seq<Snap>, now: u64, n: usize, i: int)
    requires
        0 <= i < snaps.len(),
    ensures
        kept(snaps, now, Some(n), None).contains(snaps[i]) <==> exists|k: int|
            snaps.len() - n <= k < snaps.len() && 0 <= k && (#[trigger] snaps[k]).id
                == snaps[i].id,
{
    let stay = kept_ids(snaps, now, Some(n), None);
    let p = |s: Snap| stay.contains(s.id);
    let held = snaps.filter(p);
    let id = snaps[i].id;
    let d = snaps.len() - stay.len();
    if held.contains(snaps[i]) {
        let k = choose|k: int| 0 <= k < held.len() && held[k] == snaps[i];
        snaps.lemma_filter_pred(p, k);
        let m = choose|m: int| 0 <= m < stay.len() && stay[m] == id;
        assert(ids(snaps)[d + m] == id);
        assert(snaps[d + m].id == id);
    }
    if exists|k: int|
        snaps.len() - n <= k < snaps.len() && 0 <= k && (#[trigger] snaps[k]).id == id {
        let k = choose|k: int|
            snaps.len() - n <= k < snaps.len() && 0 <= k && (#[trigger] snaps[k]).id == id;
        assert(stay[k - d] == id);
        snaps.lemma_filter_contains(p, i);
    }
}

/// A prune first removes the tree of each checkpoint that is dropped, which must go
/// through; after that it writes the journal, and last it clears the two directories for
/// leftovers.
pub proof fn prune_removes_before_it_writes(store: StoreView, removed: Seq<u64>)
    ensures
        ({
            let all = prune_steps(store, removed);
            let n = removed.len() as int;
            &&& all.len() == n + 3
            &&& forall|i: int|
                0 <= i < n ==> #[trigger] all[i] == (PruneStepView::Remove {
                    id: removed[i],
                    tree: ActionView::Remove(store.tree(removed[i])),
                })
            &&& all[n] == PruneStepView::Rewrite
            &&& all[n + 1] == PruneStepView::Clear(store.trash_dir())
            &&& all[n + 2] == PruneStepView::Clear(store.tmp_dir())
        }),
        prune_actions(store, removed).len() == removed.len(),
        forall|i: int|
            0 <= i < removed.len() ==> #[trigger] prune_actions(store, removed)[i]
                == ActionView::Remove(store.tree(removed[i])),
{
}

/// Clearing a directory discards each of its entries, and nothing else.
pub proof fn clearing_discards_each_entry(dir: PathView, listing: Seq<Seq<u8>>)
    ensures
        clear_actions(dir, listing).len() == listing.len(),
        forall|i: int|
            0 <= i < listing.len() ==> #[trigger] clear_actions(dir, listing)[i]
                == ActionView::Discard(dir.child(listing[i])),
{
}

/// Without limits all stay. A limit of age leaves out the numbers whose first checkpoint
/// is older, and keeps the order; a limit of count leaves as many as it says of the end of
/// what the other limit leaves, or all.
pub proof fn limits_apply_one_after_the_other(
    snaps: Seq<Snap>,
    now: u64,
    n: usize,
    max_age: u64,
    older: Option<u64>,
)
    ensures
        kept_ids(snaps, now, None, None) == ids(snaps),
        kept_ids(snaps, now, None, Some(max_age)) == ids(snaps).filter(
            |id: u64|
                exists|i: int| #[trigger]
                    first_with(snaps, id, i) && now - snaps[i].ts <= max_age,
        ),
        ({
            let rest = kept_ids(snaps, now, None, older);
            let end = kept_ids(snaps, now, Some(n), older);
            &&& n <= rest.len() ==> end.len() == n
            &&& n >= rest.len() ==> end.len() == rest.len()
            &&& end == rest.skip(rest.len() - end.len())
        }),
{
    let young = |id: u64|
        exists|i: int| #[trigger] first_with(snaps, id, i) && now - snaps[i].ts <= max_age;
    assert forall|id: u64| #[trigger] young(id) == is_young(snaps, id, now, max_age) by {
        if is_young(snaps, id, now, max_age) {
            let i = choose|i: int| #[trigger]
                first_with(snaps, id, i) && age(now, snaps[i].ts) <= max_age;
            assert(first_with(snaps, id, i) && now - snaps[i].ts <= max_age);
        }
        if young(id) {
            let i = choose|i: int| #[trigger]
                first_with(snaps, id, i) && now - snaps[i].ts <= max_age;
            assert(first_with(snaps, id, i) && age(now, snaps[i].ts) <= max_age);
        }
    }
    assert(young =~= (|id: u64| is_young(snaps, id, now, max_age)));
    last_are_the_end(kept_ids(snaps, now, None, older), n as nat);
}

} // verus!
