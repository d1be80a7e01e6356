//! What forks come to on disk.

use crate::action::{after, clone_of, content, ActionView};
use crate::disk::{within, Disk, Names, Node};
use crate::effect::{lemma_joined, same_at};
use crate::fork::{fork_action, fork_target};
use crate::number::decimal;
use crate::path::{utf8_lossy, PathView};
use crate::snap_law::{has_dir, is_checkpoint, lemma_nothing_below, saved, sound};
use crate::store::{store_name, StoreView};
use crate::tree_ref::TreeRef;
use vstd::prelude::*;
use vstd::utf8::encode_utf8;

verus! {

/// Whether a fork can be made: the tree is there, nothing is where the fork is to
/// go, and that is not in the tree itself.
pub open spec fn can_fork(store: StoreView, d: Disk, source: TreeRef, target: PathView) -> bool {
    &&& has_dir(d, source.place(store).parts)
    &&& !d.contains_key(target.parts)
    &&& !within(target.parts, source.place(store).parts)
}

/// What a fork of a tree holds: the workspace as a checkpoint would hold it, or
/// what the checkpoint holds.
pub open spec fn forked(store: StoreView, d: Disk, source: TreeRef) -> Map<Names, Node> {
    match source {
        TreeRef::Live => saved(d, store.root.parts),
        TreeRef::Id(id) => content(d, store.tree(id).parts),
    }
}

/// A fork holds what it was made of, and has no store.
pub proof fn fork_holds_its_source(
    store: StoreView,
    d: Disk,
    next: u64,
    source: TreeRef,
    target: PathView,
)
    requires
        sound(store, d, next),
        can_fork(store, d, source, target),
    ensures
        ({
            let e = after(d, fork_action(store, source, target));
            &&& has_dir(e, target.parts)
            &&& content(e, target.parts) == forked(store, d, source)
            &&& !e.contains_key(target.child(store_name()).parts)
        }),
{
    let e = after(d, fork_action(store, source, target));
    let base = target.parts;
    let src = source.place(store).parts;
    let ex = match source {
        TreeRef::Live => seq![store_name()],
        TreeRef::Id(_) => Seq::empty(),
    };
    let t = clone_of(d, src, ex);
    let f = forked(store, d, source);
    let none = Seq::<Seq<u8>>::empty();
    assert(src + none =~= src);
    if let TreeRef::Id(id) = source {
        assert(is_checkpoint(content(d, store.tree(id).parts)));
        assert forall|x: Names| t.contains_key(x) == f.contains_key(x) by {
            if x.len() == 0 {
                assert(x =~= none);
            }
        }
        assert forall|x: Names| t.contains_key(x) implies #[trigger] t[x] == f[x] by {
            if x.len() == 0 {
                assert(x =~= none);
            }
        }
        assert(t =~= f);
    }
    lemma_nothing_below(d, base);
    let c = content(e, base);
    assert forall|x: Names| c.contains_key(x) == t.contains_key(x) by {
        lemma_joined(base, x);
    }
    assert forall|x: Names| c.contains_key(x) implies #[trigger] c[x] == t[x] by {
        lemma_joined(base, x);
    }
    assert(c =~= t);
    assert(base.take(base.len() as int) =~= base);
    let x = seq![store_name()];
    assert(base + x =~= base.push(store_name()));
    if e.contains_key(base.push(store_name())) {
        assert(c.contains_key(x));
        assert(ex.len() > 0 ==> ex[0] == store_name());
    }
}

/// A fork changes nothing but what is where it goes, and makes the directories above
/// that are missing.
pub proof fn fork_touches_only_its_target(
    store: StoreView,
    d: Disk,
    source: TreeRef,
    target: PathView,
    p: Names,
)
    requires
        can_fork(store, d, source, target),
        !within(p, target.parts),
        d.contains_key(p) || !within(target.parts, p),
    ensures
        same_at(d, after(d, fork_action(store, source, target)), p),
{
}

/// A single fork goes to the place that is given. Of several, each goes next to that
/// place, under its name and the number of the fork.
pub proof fn fork_goes_where_it_is_sent(
    store: StoreView,
    source: TreeRef,
    k: u32,
    count: u32,
    dest: PathView,
)
    ensures
        count == 1 ==> fork_target(store, source, k, count, Some(dest)) == dest,
        count != 1 ==> fork_target(store, source, k, count, Some(dest)) == dest.with_file_name(
            encode_utf8(
                match dest.file_name() {
                    Some(n) => utf8_lossy(n),
                    None => Seq::empty(),
                } + seq!['-'] + decimal(k as nat),
            ),
        ),
{
    reveal_strlit("-");
    assert("-"@ =~= seq!['-']);
}

/// A fork for which no place is given goes next to the workspace, under the name of the
/// workspace, the word `fork`, what it is a fork of, and its number where there are
/// several.
pub proof fn fork_is_named_after_its_source(
    store: StoreView,
    source: TreeRef,
    k: u32,
    count: u32,
    up: PathView,
)
    requires
        store.root.parent() == Some(up),
    ensures
        ({
            let workspace = match store.root.file_name() {
                Some(n) => utf8_lossy(n),
                None => "workspace"@,
            };
            let of = match source {
                TreeRef::Live => "live"@,
                TreeRef::Id(id) => decimal(id as nat),
            };
            let target = fork_target(store, source, k, count, None);
            &&& count <= 1 ==> target == up.entry(workspace + "-fork-"@ + of)
            &&& count > 1 ==> target == up.entry(
                workspace + "-fork-"@ + of + seq!['-'] + decimal(k as nat),
            )
        }),
{
    reveal_strlit("-");
    assert("-"@ =~= seq!['-']);
}

/// A fork is a clone of what it is a fork of; of the live workspace the store is left
/// out, and of a checkpoint nothing.
pub proof fn fork_is_a_clone_of_its_source(store: StoreView, source: TreeRef, target: PathView)
    ensures
        fork_action(store, source, target) matches ActionView::Clone { src, dst, exclude } && dst
            == target && match source {
            TreeRef::Live => src == store.root && exclude.len() == 1 && exclude[0] == encode_utf8(
                ".timefork"@,
            ),
            TreeRef::Id(id) => src == store.tree(id) && exclude.len() == 0,
        },
{
}

} // verus!
