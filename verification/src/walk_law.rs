//! What a walk comes to.
//!
//! A walk under way owes what is below the directories that it has still to
//! list. No listing changes what was found and is still owed, taken together;
//! so a finished walk found all of the tree, and only that.

use crate::disk::{lemma_below, lemma_through, within, EntryKind, Names};
use crate::listing::{recorded, EntryView, Meta};
use crate::path::PathView;
use crate::store::store_name;
use crate::walk::{counted, records, subdirs, RawView, WalkerView};
use vstd::prelude::*;
use vstd::utf8::encode_utf8;

verus! {

/// What the file system says of each path in a tree.
pub type Said = Map<Names, RawView>;

/// Whatever is in the tree lies in a directory of the tree.
pub open spec fn is_tree(s: Said) -> bool {
    forall|p: Names, n: Seq<u8>| #[trigger]
        s.contains_key(p.push(n)) && p.len() > 0 ==> s.contains_key(p) && s[p].kind()
            == EntryKind::Dir
}

/// Whether `listing` says of each entry of the directory `dir` what is said of
/// it.
pub open spec fn lists_said(s: Said, dir: Names, listing: Seq<RawView>) -> bool {
    &&& forall|i: int|
        0 <= i < listing.len() ==> s.contains_key(dir.push((#[trigger] listing[i]).name))
            && s[dir.push(listing[i].name)] == listing[i]
    &&& forall|n: Seq<u8>| #[trigger]
        s.contains_key(dir.push(n)) ==> exists|i: int|
            0 <= i < listing.len() && (#[trigger] listing[i]).name == n
}

/// Whether `p` is in the store of the live workspace.
pub open spec fn hidden(live: bool, p: Names) -> bool {
    live && p.len() > 0 && p[0] == store_name()
}

/// Whether the walk will find `p` below the directory `dir`.
pub open spec fn owed_below(s: Said, live: bool, dir: Names, p: Names) -> bool {
    within(p, dir) && p != dir && s.contains_key(p) && !hidden(live, p)
}

/// Whether `p` with `m` was found.
pub open spec fn was_found(found: Seq<EntryView>, p: Names, m: Meta) -> bool {
    exists|i: int| 0 <= i < found.len() && (#[trigger] found[i]) == (EntryView { path: p, meta: m })
}

/// Whether `p` lies below a directory that is still to be listed.
pub open spec fn is_pending(s: Said, live: bool, pending: Seq<PathView>, p: Names) -> bool {
    exists|i: int|
        0 <= i < pending.len() && owed_below(s, live, (#[trigger] pending[i]).parts, p)
}

impl WalkerView {
    /// What was found, and what is still owed.
    pub open spec fn promised(self, s: Said) -> Set<(Names, Meta)> {
        Set::new(
            |x: (Names, Meta)|
                was_found(self.found, x.0, x.1) || (is_pending(s, self.live, self.pending, x.0)
                    && s[x.0].meta() == x.1),
        )
    }

    /// The walk never enters the store of the live workspace.
    pub open spec fn keeps_out(self) -> bool {
        forall|i: int|
            0 <= i < self.pending.len() ==> !hidden(self.live, (#[trigger] self.pending[i]).parts)
    }
}

/// A walk starts by owing all of the tree, but for the store of the live
/// workspace.
pub proof fn walk_starts(live: bool, s: Said)
    ensures
        WalkerView::start(live).keeps_out(),
        forall|p: Names, m: Meta| #[trigger]
            WalkerView::start(live).promised(s).contains((p, m)) <==> p.len() > 0 && s.contains_key(
                p,
            ) && !hidden(live, p) && s[p].meta() == m,
{
    let w = WalkerView::start(live);
    let top = Seq::<Seq<u8>>::empty();
    assert(w.pending[0].parts == top);
    assert forall|p: Names, m: Meta| #[trigger]
        w.promised(s).contains((p, m)) <==> p.len() > 0 && s.contains_key(p) && !hidden(live, p)
        && s[p].meta() == m by {
        assert(p.subrange(0, 0) =~= top);
        if p.len() == 0 {
            assert(p =~= top);
        } else {
            assert(p != top);
        }
        if owed_below(s, live, top, p) {
            assert(owed_below(s, live, w.pending[0].parts, p));
        }
    }
}

/// The entries that count are those that are not hidden.
proof fn lemma_counted(s: Said, live: bool, dir: PathView, listing: Seq<RawView>)
    requires
        lists_said(s, dir.parts, listing),
        !hidden(live, dir.parts),
    ensures
        forall|i: int|
            0 <= i < counted(live, dir, listing).len() ==> {
                let e = #[trigger] counted(live, dir, listing)[i];
                &&& s.contains_key(dir.parts.push(e.name))
                &&& s[dir.parts.push(e.name)] == e
                &&& !hidden(live, dir.parts.push(e.name))
            },
        forall|n: Seq<u8>| #[trigger]
            s.contains_key(dir.parts.push(n)) && !hidden(live, dir.parts.push(n)) ==> exists|i: int|
                0 <= i < counted(live, dir, listing).len() && (#[trigger] counted(
                    live,
                    dir,
                    listing,
                )[i]).name == n,
{
    let all = counted(live, dir, listing);
    let visible = |e: RawView| e.name != store_name();
    if live && dir.parts.len() == 0 {
        assert forall|i: int| 0 <= i < all.len() implies {
            let e = #[trigger] all[i];
            &&& s.contains_key(dir.parts.push(e.name))
            &&& s[dir.parts.push(e.name)] == e
            &&& !hidden(live, dir.parts.push(e.name))
        } by {
            listing.lemma_filter_pred(visible, i);
            assert(all.contains(all[i]));
            listing.lemma_filter_contains_rev(visible, all[i]);
            let k = choose|k: int| 0 <= k < listing.len() && listing[k] == all[i];
            assert(listing[k] == all[i]);
        }
        assert forall|n: Seq<u8>| #[trigger]
            s.contains_key(dir.parts.push(n)) && !hidden(live, dir.parts.push(n)) implies exists|
            i: int,
        | 0 <= i < all.len() && (#[trigger] all[i]).name == n by {
            let k = choose|k: int| 0 <= k < listing.len() && (#[trigger] listing[k]).name == n;
            assert(dir.parts.push(n)[0] == n);
            listing.lemma_filter_contains(visible, k);
            let i = choose|i: int| 0 <= i < all.len() && all[i] == listing[k];
            assert(all[i].name == n);
        }
    } else {
        assert forall|i: int| 0 <= i < all.len() implies {
            let e = #[trigger] all[i];
            &&& s.contains_key(dir.parts.push(e.name))
            &&& s[dir.parts.push(e.name)] == e
            &&& !hidden(live, dir.parts.push(e.name))
        } by {
            assert(listing[i] == all[i]);
            if live {
                assert(dir.parts.push(all[i].name)[0] == dir.parts[0]);
            }
        }
        assert forall|n: Seq<u8>| #[trigger]
            s.contains_key(dir.parts.push(n)) && !hidden(live, dir.parts.push(n)) implies exists|
            i: int,
        | 0 <= i < all.len() && (#[trigger] all[i]).name == n by {
            let k = choose|k: int| 0 <= k < listing.len() && (#[trigger] listing[k]).name == n;
            assert(all[k].name == n);
        }
    }
}

/// Whether `q` is a directory among the entries `all` of the directory `dir`.
spec fn is_subdir(dir: PathView, all: Seq<RawView>, q: PathView) -> bool {
    exists|k: int|
        0 <= k < all.len() && (#[trigger] all[k]).kind() == EntryKind::Dir && dir.child(all[k].name)
            == q
}

proof fn lemma_subdirs(dir: PathView, all: Seq<RawView>)
    ensures
        forall|i: int|
            0 <= i < subdirs(dir, all).len() ==> is_subdir(dir, all, #[trigger] subdirs(dir, all)[i]),
        forall|k: int|
            0 <= k < all.len() && (#[trigger] all[k]).kind() == EntryKind::Dir ==> subdirs(
                dir,
                all,
            ).contains(dir.child(all[k].name)),
{
    let is_dir = |e: RawView| e.kind() == EntryKind::Dir;
    let f = all.filter(is_dir);
    assert forall|i: int| 0 <= i < subdirs(dir, all).len() implies is_subdir(
        dir,
        all,
        #[trigger] subdirs(dir, all)[i],
    ) by {
        all.lemma_filter_pred(is_dir, i);
        assert(f.contains(f[i]));
        all.lemma_filter_contains_rev(is_dir, f[i]);
        let k = choose|k: int| 0 <= k < all.len() && all[k] == f[i];
        assert(all[k].kind() == EntryKind::Dir && dir.child(all[k].name) == subdirs(dir, all)[i]);
    }
    assert forall|k: int|
        0 <= k < all.len() && (#[trigger] all[k]).kind() == EntryKind::Dir implies subdirs(
        dir,
        all,
    ).contains(dir.child(all[k].name)) by {
        all.lemma_filter_contains(is_dir, k);
        let i = choose|i: int| 0 <= i < f.len() && f[i] == all[k];
        assert(subdirs(dir, all)[i] == dir.child(all[k].name));
    }
}

proof fn lemma_only_dirs_below(s: Said, p: Names, q: Names)
    requires
        is_tree(s),
        s.contains_key(q),
        within(q, p),
        p.len() > 0,
        q != p,
    ensures
        s.contains_key(p),
        s[p].kind() == EntryKind::Dir,
    decreases q.len(),
{
    lemma_below(q, p);
    let up = q.drop_last();
    assert(up.push(q.last()) =~= q);
    assert(within(up, p)) by {
        assert(up.take(p.len() as int) =~= p);
    }
    if up != p {
        lemma_only_dirs_below(s, p, up);
    }
}

/// Listing a directory keeps the promise of the walk.
pub proof fn walk_keeps_when_listed(w: WalkerView, s: Said, listing: Seq<RawView>)
    requires
        w.next() is Some,
        w.keeps_out(),
        is_tree(s),
        lists_said(s, w.pending.last().parts, listing),
    ensures
        w.after_listed(listing).keeps_out(),
        w.after_listed(listing).promised(s) == w.promised(s),
{
    let dir = w.pending.last();
    let d = dir.parts;
    let rest = w.pending.drop_last();
    let all = counted(w.live, dir, listing);
    let subs = subdirs(dir, all);
    let recs = records(dir, all);
    let after = w.after_listed(listing);
    assert(w.pending[w.pending.len() - 1] == dir);
    lemma_counted(s, w.live, dir, listing);
    lemma_subdirs(dir, all);
    assert forall|i: int| 0 <= i < after.pending.len() implies !hidden(
        w.live,
        (#[trigger] after.pending[i]).parts,
    ) by {
        if i < rest.len() {
            assert(after.pending[i] == w.pending[i]);
        } else {
            assert(after.pending[i] == subs[i - rest.len()]);
        }
    }
    assert forall|p: Names, m: Meta| #[trigger]
        after.promised(s).contains((p, m)) == w.promised(s).contains((p, m)) by {
        if after.promised(s).contains((p, m)) {
            lemma_after_to_before(w, s, listing, p, m);
        }
        if w.promised(s).contains((p, m)) {
            lemma_before_to_after(w, s, listing, p, m);
        }
    }
    assert(after.promised(s) =~= w.promised(s));
}

proof fn lemma_after_to_before(w: WalkerView, s: Said, listing: Seq<RawView>, p: Names, m: Meta)
    requires
        w.next() is Some,
        w.keeps_out(),
        lists_said(s, w.pending.last().parts, listing),
        w.after_listed(listing).promised(s).contains((p, m)),
    ensures
        w.promised(s).contains((p, m)),
{
    let dir = w.pending.last();
    let d = dir.parts;
    let rest = w.pending.drop_last();
    let all = counted(w.live, dir, listing);
    let subs = subdirs(dir, all);
    let recs = records(dir, all);
    let after = w.after_listed(listing);
    assert(w.pending[w.pending.len() - 1] == dir);
    lemma_counted(s, w.live, dir, listing);
    lemma_subdirs(dir, all);
    if was_found(after.found, p, m) {
        let i = choose|i: int|
            0 <= i < after.found.len() && (#[trigger] after.found[i]) == (EntryView {
                path: p,
                meta: m,
            });
        if i < w.found.len() {
            assert(w.found[i] == after.found[i]);
            assert(was_found(w.found, p, m));
        } else {
            let e = all[i - w.found.len()];
            assert(after.found[i] == recs[i - w.found.len()]);
            assert(p == d.push(e.name));
            assert(p.subrange(0, d.len() as int) =~= d);
            assert(owed_below(s, w.live, w.pending[w.pending.len() - 1].parts, p));
            assert(is_pending(s, w.live, w.pending, p));
        }
    } else {
        let i = choose|i: int|
            0 <= i < after.pending.len() && owed_below(
                s,
                w.live,
                (#[trigger] after.pending[i]).parts,
                p,
            );
        if i < rest.len() {
            assert(after.pending[i] == w.pending[i]);
            assert(owed_below(s, w.live, w.pending[i].parts, p));
        } else {
            assert(after.pending[i] == subs[i - rest.len()]);
            let k = choose|k: int|
                0 <= k < all.len() && (#[trigger] all[k]).kind() == EntryKind::Dir && dir.child(
                    all[k].name,
                ) == subs[i - rest.len()];
            lemma_through(p, d, all[k].name);
            assert(owed_below(s, w.live, w.pending[w.pending.len() - 1].parts, p));
        }
    }
}

proof fn lemma_before_to_after(w: WalkerView, s: Said, listing: Seq<RawView>, p: Names, m: Meta)
    requires
        w.next() is Some,
        w.keeps_out(),
        is_tree(s),
        lists_said(s, w.pending.last().parts, listing),
        w.promised(s).contains((p, m)),
    ensures
        w.after_listed(listing).promised(s).contains((p, m)),
{
    let dir = w.pending.last();
    let d = dir.parts;
    let rest = w.pending.drop_last();
    let all = counted(w.live, dir, listing);
    let subs = subdirs(dir, all);
    let recs = records(dir, all);
    let after = w.after_listed(listing);
    lemma_counted(s, w.live, dir, listing);
    lemma_subdirs(dir, all);
    if was_found(w.found, p, m) {
        let i = choose|i: int|
            0 <= i < w.found.len() && (#[trigger] w.found[i]) == (EntryView { path: p, meta: m });
        assert(after.found[i] == w.found[i]);
        assert(was_found(after.found, p, m));
    } else {
        let i = choose|i: int|
            0 <= i < w.pending.len() && owed_below(s, w.live, (#[trigger] w.pending[i]).parts, p);
        if i < rest.len() {
            assert(after.pending[i] == w.pending[i]);
            assert(owed_below(s, w.live, after.pending[i].parts, p));
        } else {
            assert(w.pending[i] == dir);
            lemma_below(p, d);
            let name = p[d.len() as int];
            let first = d.push(name);
            if p != first {
                lemma_only_dirs_below(s, first, p);
            }
            assert(first[0] == p[0]) by {
                if d.len() > 0 {
                    assert(d[0] == p.subrange(0, d.len() as int)[0]);
                }
            }
            let k = choose|k: int| 0 <= k < all.len() && (#[trigger] all[k]).name == name;
            if p == first {
                assert(recs[k] == (EntryView { path: p, meta: m }));
                assert(after.found[w.found.len() + k] == recs[k]);
                assert(was_found(after.found, p, m));
            } else {
                assert(all[k].kind() == EntryKind::Dir);
                let j = choose|j: int| 0 <= j < subs.len() && subs[j] == dir.child(name);
                assert(after.pending[rest.len() + j] == subs[j]);
                assert(owed_below(s, w.live, after.pending[rest.len() + j].parts, p));
            }
        }
    }
}

proof fn lemma_found_recorded(found: Seq<EntryView>, p: Names)
    ensures
        recorded(found).contains_key(p) ==> was_found(found, p, recorded(found)[p]),
        (exists|m: Meta| was_found(found, p, m)) ==> recorded(found).contains_key(p),
    decreases found.len(),
{
    if found.len() > 0 {
        let w = found.drop_last();
        lemma_found_recorded(w, p);
        if recorded(found).contains_key(p) {
            if found.last().path == p {
                assert(found[found.len() - 1] == (EntryView { path: p, meta: recorded(found)[p] }));
            } else {
                let m = recorded(w)[p];
                let i = choose|i: int|
                    0 <= i < w.len() && (#[trigger] w[i]) == (EntryView { path: p, meta: m });
                assert(found[i] == w[i]);
            }
        }
        if exists|m: Meta| was_found(found, p, m) {
            let m = choose|m: Meta| was_found(found, p, m);
            let i = choose|i: int|
                0 <= i < found.len() && (#[trigger] found[i]) == (EntryView { path: p, meta: m });
            if i < w.len() {
                assert(w[i] == found[i]);
                assert(was_found(w, p, m));
            }
        }
    }
}

/// What a walk through a tree records: all of it, but for the store of the live
/// workspace.
pub open spec fn walked(s: Said, live: bool) -> Map<Names, Meta> {
    Map::new(
        |p: Names| p.len() > 0 && s.contains_key(p) && !hidden(live, p),
        |p: Names| s[p].meta(),
    )
}

/// A finished walk that kept its promise recorded all of the tree, but for the
/// store of the live workspace, and nothing else.
pub proof fn walk_finishes(w: WalkerView, s: Said)
    requires
        w.next() is None,
        w.promised(s) == WalkerView::start(w.live).promised(s),
    ensures
        recorded(w.found) == walked(s, w.live),
{
    walk_starts(w.live, s);
    let start = WalkerView::start(w.live);
    let want = walked(s, w.live);
    assert forall|p: Names, m: Meta|
        was_found(w.found, p, m) <==> (want.contains_key(p) && want[p] == m) by {
        assert(w.promised(s).contains((p, m)) == start.promised(s).contains((p, m)));
    }
    assert forall|p: Names| #[trigger] recorded(w.found).contains_key(p) <==> want.contains_key(
        p,
    ) by {
        lemma_found_recorded(w.found, p);
        if want.contains_key(p) {
            assert(was_found(w.found, p, want[p]));
        }
    }
    assert forall|p: Names| #[trigger] recorded(w.found).contains_key(p) implies recorded(
        w.found,
    )[p] == want[p] by {
        lemma_found_recorded(w.found, p);
    }
    assert(recorded(w.found) =~= want);
}

/// The walk after it was told these listings.
pub open spec fn in_turn(w: WalkerView, all: Seq<Seq<RawView>>) -> WalkerView
    decreases all.len(),
{
    if all.len() == 0 {
        w
    } else {
        in_turn(w, all.drop_last()).after_listed(all.last())
    }
}

/// Whether each listing says what is said of the directory that was to be listed.
pub open spec fn all_true(w: WalkerView, s: Said, all: Seq<Seq<RawView>>) -> bool
    decreases all.len(),
{
    all.len() > 0 ==> {
        let before = in_turn(w, all.drop_last());
        &&& all_true(w, s, all.drop_last())
        &&& before.next() is Some
        &&& lists_said(s, before.pending.last().parts, all.last())
    }
}

proof fn lemma_turns_keep(w: WalkerView, s: Said, all: Seq<Seq<RawView>>)
    requires
        is_tree(s),
        w.keeps_out(),
        all_true(w, s, all),
    ensures
        in_turn(w, all).live == w.live,
        in_turn(w, all).keeps_out(),
        in_turn(w, all).promised(s) == w.promised(s),
    decreases all.len(),
{
    if all.len() > 0 {
        lemma_turns_keep(w, s, all.drop_last());
        walk_keeps_when_listed(in_turn(w, all.drop_last()), s, all.last());
    }
}

/// A walk that is told what is said, until nothing is left to list, recorded all
/// of the tree, but for the store of the live workspace, and nothing else.
pub proof fn walk_comes_to_the_tree(live: bool, s: Said, all: Seq<Seq<RawView>>)
    requires
        is_tree(s),
        all_true(WalkerView::start(live), s, all),
        in_turn(WalkerView::start(live), all).next() is None,
    ensures
        recorded(in_turn(WalkerView::start(live), all).found) == walked(s, live),
{
    walk_starts(live, s);
    lemma_turns_keep(WalkerView::start(live), s, all);
    walk_finishes(in_turn(WalkerView::start(live), all), s);
}

/// Of a directory it is recorded that it is one, and nothing else; of anything else its
/// kind, its size and its time, where it has one.
pub proof fn record_is_kind_size_and_time(r: RawView)
    ensures
        r.kind() == EntryKind::Symlink <==> r.is_symlink,
        r.kind() == EntryKind::Dir <==> r.is_dir && !r.is_symlink,
        r.kind() == EntryKind::File <==> r.is_file && !r.is_dir && !r.is_symlink,
        r.meta().kind == r.kind(),
        r.meta().len == if r.kind() == EntryKind::Dir {
            0
        } else {
            r.len
        },
        r.meta().mtime_ns == match r.mtime_ns {
            Some(t) if r.kind() != EntryKind::Dir => t as int,
            _ => -1,
        },
{
}

/// In a tree, two entries are recorded alike only where their kinds are the same, and
/// their sizes and times are too, unless they are directories.
pub proof fn records_tell_entries_apart(r: RawView, q: RawView)
    ensures
        r.meta() == q.meta() && r.mtime_ns is Some && q.mtime_ns is Some ==> r.kind() == q.kind()
            && (r.kind() != EntryKind::Dir ==> r.len == q.len && r.mtime_ns == q.mtime_ns),
{
}

/// Only the store at the top of the live workspace is hidden, with all that is in it.
pub proof fn only_the_store_is_hidden(live: bool, p: Names)
    ensures
        hidden(live, p) <==> live && p.len() > 0 && p[0] == encode_utf8(".timefork"@),
{
}

/// A listing counts whole, but for the store in the live workspace itself: each entry
/// that counts is recorded under its name in the directory, and is listed in turn where
/// it is a directory.
pub proof fn listing_counts_but_for_the_store(w: WalkerView, listing: Seq<RawView>, e: RawView)
    requires
        w.next() is Some,
    ensures
        ({
            let dir = w.pending.last();
            let end = w.after_listed(listing);
            let known = listing.contains(e) && !(w.live && dir.parts.len() == 0 && e.name
                == encode_utf8(".timefork"@));
            &&& end.live == w.live
            &&& known ==> end.found.contains(
                EntryView { path: dir.parts.push(e.name), meta: e.meta() },
            )
            &&& known && e.kind() == EntryKind::Dir ==> end.pending.contains(dir.child(e.name))
            &&& w.found.is_prefix_of(end.found)
            &&& w.pending.drop_last().is_prefix_of(end.pending)
        }),
{
    let dir = w.pending.last();
    let end = w.after_listed(listing);
    let all = counted(w.live, dir, listing);
    let visible = |x: RawView| x.name != store_name();
    let is_dir = |x: RawView| x.kind() == EntryKind::Dir;
    assert(end.found.take(w.found.len() as int) =~= w.found);
    assert(end.pending.take(w.pending.len() - 1) =~= w.pending.drop_last());
    let known = listing.contains(e) && !(w.live && dir.parts.len() == 0 && e.name == store_name());
    if known {
        let i = choose|i: int| 0 <= i < listing.len() && listing[i] == e;
        if w.live && dir.parts.len() == 0 {
            listing.lemma_filter_contains(visible, i);
        }
        let k = choose|k: int| 0 <= k < all.len() && all[k] == e;
        assert(all[k] == e);
        assert(records(dir, all)[k] == (EntryView { path: dir.parts.push(e.name), meta: e.meta() }));
        assert(end.found[w.found.len() + k] == records(dir, all)[k]);
        if e.kind() == EntryKind::Dir {
            all.lemma_filter_contains(is_dir, k);
            let f = all.filter(is_dir);
            let j = choose|j: int| 0 <= j < f.len() && f[j] == e;
            assert(subdirs(dir, all)[j] == dir.child(e.name));
            assert(end.pending[w.pending.len() - 1 + j] == dir.child(e.name));
        }
    }
}

/// What a listing comes to follows its entries: one that counts is found once, after what
/// was found before, and is still to be listed where it is a directory; the store in the
/// live workspace itself is neither. A directory that is empty is done with.
pub proof fn entries_are_found_in_turn(w: WalkerView, listing: Seq<RawView>, e: RawView)
    requires
        w.next() is Some,
    ensures
        ({
            let dir = w.pending[w.pending.len() - 1];
            let none = w.after_listed(Seq::empty());
            let before = w.after_listed(listing);
            let now = w.after_listed(listing.push(e));
            let store = w.live && dir.parts.len() == 0 && e.name == encode_utf8(".timefork"@);
            &&& none.pending == w.pending.take(w.pending.len() - 1) && none.found == w.found
            &&& store ==> now.found == before.found && now.pending == before.pending
            &&& !store ==> now.found == before.found.push(
                EntryView { path: dir.parts.push(e.name), meta: e.meta() },
            )
            &&& !store && e.kind() == EntryKind::Dir ==> now.pending == before.pending.push(
                dir.child(e.name),
            )
            &&& !store && e.kind() != EntryKind::Dir ==> now.pending == before.pending
        }),
{
    let dir = w.pending.last();
    let visible = |x: RawView| x.name != store_name();
    let is_dir = |x: RawView| x.kind() == EntryKind::Dir;
    let none = Seq::<RawView>::empty();
    reveal_with_fuel(Seq::<_>::filter, 1);
    assert(counted(w.live, dir, none) =~= none);
    assert(subdirs(dir, none) =~= Seq::empty());
    assert(records(dir, none) =~= Seq::empty());
    assert(w.after_listed(none).pending =~= w.pending.take(w.pending.len() - 1));
    assert(w.after_listed(none).found =~= w.found);
    let seen = counted(w.live, dir, listing);
    let all = counted(w.live, dir, listing.push(e));
    listing.lemma_filter_push(e, visible);
    seen.lemma_filter_push(e, is_dir);
    if w.live && dir.parts.len() == 0 && e.name == store_name() {
        assert(all == seen);
    } else {
        assert(all =~= seen.push(e));
        let entry = EntryView { path: dir.parts.push(e.name), meta: e.meta() };
        assert(w.after_listed(listing.push(e)).found =~= w.after_listed(listing).found.push(entry));
        if is_dir(e) {
            assert(w.after_listed(listing.push(e)).pending =~= w.after_listed(listing).pending.push(
                dir.child(e.name),
            ));
        } else {
            assert(w.after_listed(listing.push(e)).pending =~= w.after_listed(listing).pending);
        }
    }
}

/// A walk starts at the top of the tree with nothing found, and goes on as long as a
/// directory is to be listed, the last first.
pub proof fn walk_goes_on_from_the_top(w: WalkerView, live: bool, dir: PathView)
    ensures
        WalkerView::start(live).live == live,
        WalkerView::start(live).found.len() == 0,
        WalkerView::start(live).pending.len() == 1,
        WalkerView::start(live).pending[0].parts.len() == 0,
        !WalkerView::start(live).pending[0].absolute,
        w.next() is None <==> w.pending.len() == 0,
        w.next() == Some(dir) <==> w.pending.len() > 0 && w.pending[w.pending.len() - 1] == dir,
{
}

} // verus!
