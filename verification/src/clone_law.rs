//! What a clone comes to.
//!
//! A clone under way owes what its remaining steps will write. No step changes
//! what was written and is still owed, taken together; so when nothing is left
//! to do, all of the source was written, and only that.

use crate::clone::{uncounted, ClonerView, Stage, TaskView};
use crate::disk::{
    cloneable, lemma_below, lemma_only_dirs_hold, lemma_through, lists, moved, new_dir, rooted, within,
    Disk, EntryKind, Names, Node,
};
use crate::path::PathView;
use vstd::prelude::*;

verus! {

/// What was written for good: paths, each with what was put there. A directory
/// that is being filled counts once it has its permissions.
pub type Written = Set<(Names, Node)>;

/// The directory that a clone goes to: the one that is there, or a new one.
pub open spec fn made_at(d: Disk, dst: Names) -> Node {
    if d.contains_key(dst) {
        d[dst]
    } else {
        new_dir()
    }
}

impl TaskView {
    /// Whether what is to be at `p` is at the same place in the source, and can
    /// be cloned.
    pub open spec fn source_has(self, d: Disk, p: Names, n: Node) -> bool {
        let q = moved(p, self.dst.parts, self.src.parts);
        within(p, self.dst.parts) && d.contains_key(q) && d[q] == n && !(n is Other)
    }

    /// Whether the task and what comes of it will put `n` at `p`.
    pub open spec fn owes(self, d: Disk, exclude: Seq<Seq<u8>>, p: Names, n: Node) -> bool {
        let dst = self.dst.parts;
        match self.stage {
            Stage::Root => {
                ||| p == dst && n == made_at(d, dst)
                ||| self.source_has(d, p, n) && p != dst && !exclude.contains(p[dst.len() as int])
            },
            Stage::Entry | Stage::Inspect | Stage::Fill => self.source_has(d, p, n),
            Stage::Link | Stage::Copy | Stage::Seal => p == dst && d.contains_key(self.src.parts)
                && d[self.src.parts] == n,
            Stage::Count => false,
        }
    }

    /// Whether the task and what comes of it will skip `q`.
    pub open spec fn skips(self, d: Disk, exclude: Seq<Seq<u8>>, q: Names) -> bool {
        let src = self.src.parts;
        match self.stage {
            Stage::Root => d.contains_key(q) && d[q] is Other && within(q, src) && q != src
                && !exclude.contains(q[src.len() as int]),
            Stage::Entry | Stage::Inspect | Stage::Fill => d.contains_key(q) && d[q] is Other
                && within(q, src),
            _ => false,
        }
    }
}

/// Whether one of the tasks owes `n` at `p`.
pub open spec fn owed(
    todo: Seq<TaskView>,
    d: Disk,
    exclude: Seq<Seq<u8>>,
    p: Names,
    n: Node,
) -> bool {
    exists|i: int| 0 <= i < todo.len() && (#[trigger] todo[i]).owes(d, exclude, p, n)
}

/// Whether one of the tasks will skip `q`.
pub open spec fn to_skip(todo: Seq<TaskView>, d: Disk, exclude: Seq<Seq<u8>>, q: Names) -> bool {
    exists|i: int| 0 <= i < todo.len() && (#[trigger] todo[i]).skips(d, exclude, q)
}

/// Whether `q` is one of the paths.
pub open spec fn listed_path(v: Seq<PathView>, q: Names) -> bool {
    exists|i: int| 0 <= i < v.len() && (#[trigger] v[i]).parts == q
}

impl ClonerView {
    /// What was written, and what is still owed.
    pub open spec fn promised(self, d: Disk, written: Written) -> Written {
        Set::new(
            |x: (Names, Node)| written.contains(x) || owed(self.todo, d, self.exclude, x.0, x.1),
        )
    }

    /// What was skipped, and what will be.
    pub open spec fn passed_over(self, d: Disk) -> Set<Names> {
        Set::new(
            |q: Names| listed_path(self.skipped, q) || to_skip(self.todo, d, self.exclude, q),
        )
    }
}

proof fn lemma_split(a: Seq<TaskView>, b: Seq<TaskView>, d: Disk, exclude: Seq<Seq<u8>>)
    ensures
        forall|p: Names, n: Node| #[trigger]
            owed(a + b, d, exclude, p, n) <==> owed(a, d, exclude, p, n) || owed(
                b,
                d,
                exclude,
                p,
                n,
            ),
        forall|q: Names| #[trigger]
            to_skip(a + b, d, exclude, q) <==> to_skip(a, d, exclude, q) || to_skip(
                b,
                d,
                exclude,
                q,
            ),
{
    let c = a + b;
    assert forall|p: Names, n: Node| #[trigger]
        owed(c, d, exclude, p, n) <==> owed(a, d, exclude, p, n) || owed(b, d, exclude, p, n) by {
        if owed(c, d, exclude, p, n) {
            let i = choose|i: int| 0 <= i < c.len() && (#[trigger] c[i]).owes(d, exclude, p, n);
            if i < a.len() {
                assert(a[i].owes(d, exclude, p, n));
            } else {
                assert(b[i - a.len()].owes(d, exclude, p, n));
            }
        }
        if owed(a, d, exclude, p, n) {
            let i = choose|i: int| 0 <= i < a.len() && (#[trigger] a[i]).owes(d, exclude, p, n);
            assert(c[i].owes(d, exclude, p, n));
        }
        if owed(b, d, exclude, p, n) {
            let i = choose|i: int| 0 <= i < b.len() && (#[trigger] b[i]).owes(d, exclude, p, n);
            assert(c[a.len() + i].owes(d, exclude, p, n));
        }
    }
    assert forall|q: Names| #[trigger]
        to_skip(c, d, exclude, q) <==> to_skip(a, d, exclude, q) || to_skip(b, d, exclude, q) by {
        if to_skip(c, d, exclude, q) {
            let i = choose|i: int| 0 <= i < c.len() && (#[trigger] c[i]).skips(d, exclude, q);
            if i < a.len() {
                assert(a[i].skips(d, exclude, q));
            } else {
                assert(b[i - a.len()].skips(d, exclude, q));
            }
        }
        if to_skip(a, d, exclude, q) {
            let i = choose|i: int| 0 <= i < a.len() && (#[trigger] a[i]).skips(d, exclude, q);
            assert(c[i].skips(d, exclude, q));
        }
        if to_skip(b, d, exclude, q) {
            let i = choose|i: int| 0 <= i < b.len() && (#[trigger] b[i]).skips(d, exclude, q);
            assert(c[a.len() + i].skips(d, exclude, q));
        }
    }
}

proof fn lemma_one(t: TaskView, d: Disk, exclude: Seq<Seq<u8>>)
    ensures
        forall|p: Names, n: Node| #[trigger]
            owed(seq![t], d, exclude, p, n) <==> t.owes(d, exclude, p, n),
        forall|q: Names| #[trigger]
            to_skip(seq![t], d, exclude, q) <==> t.skips(d, exclude, q),
{
    let one = seq![t];
    assert(one[0] == t);
    assert forall|p: Names, n: Node| #[trigger]
        owed(one, d, exclude, p, n) <==> t.owes(d, exclude, p, n) by {
        if t.owes(d, exclude, p, n) {
            assert(one[0].owes(d, exclude, p, n));
        }
    }
    assert forall|q: Names| #[trigger]
        to_skip(one, d, exclude, q) <==> t.skips(d, exclude, q) by {
        if t.skips(d, exclude, q) {
            assert(one[0].skips(d, exclude, q));
        }
    }
}

/// The entries of a directory owe what the directory owes below itself.
proof fn lemma_entries(t: TaskView, d: Disk, exclude: Seq<Seq<u8>>, listing: Seq<Seq<u8>>)
    requires
        rooted(d),
        forall|n: Seq<u8>| #[trigger]
            listing.contains(n) ==> d.contains_key(t.src.parts.push(n)),
    ensures
        forall|p: Names, n: Node| #[trigger]
            owed(t.of_entries(listing), d, exclude, p, n) <==> t.source_has(d, p, n) && p
                != t.dst.parts && listing.contains(p[t.dst.parts.len() as int]),
        forall|q: Names| #[trigger]
            to_skip(t.of_entries(listing), d, exclude, q) <==> d.contains_key(q) && d[q] is Other
                && within(q, t.src.parts) && q != t.src.parts && listing.contains(
                q[t.src.parts.len() as int],
            ),
{
    let v = t.of_entries(listing);
    let src = t.src.parts;
    let dst = t.dst.parts;
    assert forall|p: Names, n: Node| #[trigger]
        owed(v, d, exclude, p, n) <==> t.source_has(d, p, n) && p != dst && listing.contains(
        p[dst.len() as int],
    ) by {
        if owed(v, d, exclude, p, n) {
            let i = choose|i: int| 0 <= i < v.len() && (#[trigger] v[i]).owes(d, exclude, p, n);
            let k = listing.len() - 1 - i;
            let name = listing[k];
            assert(v[i] == t.of_entry(name));
            lemma_through(p, dst, name);
            assert(moved(p, dst.push(name), src.push(name)) =~= moved(p, dst, src));
        }
        if t.source_has(d, p, n) && p != dst && listing.contains(p[dst.len() as int]) {
            lemma_below(p, dst);
            let k = choose|k: int| 0 <= k < listing.len() && listing[k] == p[dst.len() as int];
            let name = listing[k];
            let i = listing.len() - 1 - k;
            assert(v[i] == t.of_entry(name));
            assert(moved(p, dst.push(name), src.push(name)) =~= moved(p, dst, src));
            assert(v[i].owes(d, exclude, p, n));
        }
    }
    assert forall|q: Names| #[trigger]
        to_skip(v, d, exclude, q) <==> d.contains_key(q) && d[q] is Other && within(q, src) && q
        != src && listing.contains(q[src.len() as int]) by {
        if to_skip(v, d, exclude, q) {
            let i = choose|i: int| 0 <= i < v.len() && (#[trigger] v[i]).skips(d, exclude, q);
            let name = listing[listing.len() - 1 - i];
            assert(v[i] == t.of_entry(name));
            lemma_through(q, src, name);
        }
        if d.contains_key(q) && d[q] is Other && within(q, src) && q != src && listing.contains(
            q[src.len() as int],
        ) {
            lemma_below(q, src);
            let k = choose|k: int| 0 <= k < listing.len() && listing[k] == q[src.len() as int];
            assert(v[listing.len() - 1 - k] == t.of_entry(listing[k]));
            assert(v[listing.len() - 1 - k].skips(d, exclude, q));
        }
    }
}

/// A task that only counts owes and skips nothing.
proof fn lemma_count_owes_nothing(
    rest: Seq<TaskView>,
    t: TaskView,
    d: Disk,
    exclude: Seq<Seq<u8>>,
)
    requires
        t.stage == Stage::Count,
    ensures
        forall|p: Names, n: Node| #[trigger]
            owed(rest.push(t), d, exclude, p, n) <==> owed(rest, d, exclude, p, n),
        forall|q: Names| #[trigger]
            to_skip(rest.push(t), d, exclude, q) <==> to_skip(rest, d, exclude, q),
{
    assert(rest.push(t) =~= rest + seq![t]);
    lemma_split(rest, seq![t], d, exclude);
    lemma_one(t, d, exclude);
}

/// Entries that are to be counted owe what the entries do.
proof fn lemma_counted(t: TaskView, d: Disk, exclude: Seq<Seq<u8>>, listing: Seq<Seq<u8>>)
    ensures
        forall|p: Names, n: Node| #[trigger]
            owed(t.of_counted(listing), d, exclude, p, n) <==> owed(
                t.of_entries(listing),
                d,
                exclude,
                p,
                n,
            ),
        forall|q: Names| #[trigger]
            to_skip(t.of_counted(listing), d, exclude, q) <==> to_skip(
                t.of_entries(listing),
                d,
                exclude,
                q,
            ),
    decreases listing.len(),
{
    if listing.len() == 0 {
        assert(t.of_counted(listing) =~= t.of_entries(listing));
    } else {
        let later = listing.skip(1);
        let first = t.of_entry(listing[0]);
        let count = first.at(Stage::Count);
        let counted = t.of_counted(later).push(count);
        lemma_counted(t, d, exclude, later);
        lemma_count_owes_nothing(t.of_counted(later), count, d, exclude);
        assert(t.of_counted(listing) =~= counted + seq![first]);
        assert(t.of_entries(listing) =~= t.of_entries(later) + seq![first]);
        lemma_split(counted, seq![first], d, exclude);
        lemma_split(t.of_entries(later), seq![first], d, exclude);
    }
}

/// On a rooted disk the listing of a directory names whatever is below it.
pub proof fn lemma_listing(d: Disk, dir: Names, listing: Seq<Seq<u8>>, q: Names)
    requires
        rooted(d),
        lists(d, dir, listing),
        d.contains_key(q),
        within(q, dir),
        q != dir,
    ensures
        listing.contains(q[dir.len() as int]),
{
    lemma_below(q, dir);
    let first = dir.push(q[dir.len() as int]);
    if q != first {
        lemma_only_dirs_hold(d, first, q);
    }
}

/// A clone starts by owing its destination, and the source with all that is
/// below it, but for what is left out and what cannot be cloned.
pub proof fn clone_starts(src: PathView, dst: PathView, exclude: Seq<Seq<u8>>, d: Disk)
    ensures
        forall|p: Names, n: Node| #[trigger]
            ClonerView::start(src, dst, exclude).promised(d, Set::empty()).contains((p, n)) <==> {
                ||| p == dst.parts && n == made_at(d, dst.parts)
                ||| {
                    let q = moved(p, dst.parts, src.parts);
                    &&& within(p, dst.parts)
                    &&& p != dst.parts
                    &&& !exclude.contains(p[dst.parts.len() as int])
                    &&& d.contains_key(q)
                    &&& d[q] == n
                    &&& !(n is Other)
                }
            },
        forall|q: Names| #[trigger]
            ClonerView::start(src, dst, exclude).passed_over(d).contains(q) <==> d.contains_key(q)
                && d[q] is Other && within(q, src.parts) && q != src.parts && !exclude.contains(
                q[src.parts.len() as int],
            ),
{
    lemma_one(TaskView { stage: Stage::Root, src, dst }, d, exclude);
}

/// A finished clone owes nothing: what was promised is what was written, and
/// what was to be passed over was reported.
pub proof fn clone_finishes(w: ClonerView, d: Disk, written: Written)
    requires
        w.next() is None,
    ensures
        w.promised(d, written) == written,
        forall|q: Names| #[trigger] w.passed_over(d).contains(q) <==> listed_path(w.skipped, q),
{
    assert(w.promised(d, written) =~= written);
}

/// Listing a directory, once its destination is made, keeps the promise.
pub proof fn clone_keeps_when_listed(
    w: ClonerView,
    d: Disk,
    written: Written,
    listing: Seq<Seq<u8>>,
)
    requires
        w.at(Stage::Root) || w.at(Stage::Fill),
        rooted(d),
        w.at(Stage::Fill) ==> d.contains_key(w.todo.last().src.parts)
            && d[w.todo.last().src.parts] is Dir,
        lists(d, w.todo.last().src.parts, listing),
    ensures
        w.after_listed(listing).promised(
            d,
            if w.at(Stage::Root) {
                written.insert((w.todo.last().dst.parts, made_at(d, w.todo.last().dst.parts)))
            } else {
                written
            },
        ) == w.promised(d, written),
        w.after_listed(listing).passed_over(d) == w.passed_over(d),
{
    let t = w.todo.last();
    let rest = w.todo.drop_last();
    let src = t.src.parts;
    let dst = t.dst.parts;
    let x = w.exclude;
    let now = if t.stage == Stage::Root {
        written.insert((dst, made_at(d, dst)))
    } else {
        written
    };
    let after = w.after_listed(listing);
    assert(w.todo =~= rest + seq![t]);
    lemma_split(rest, seq![t], d, x);
    lemma_one(t, d, x);
    assert(src + Seq::<Seq<u8>>::empty() =~= src);
    assert(moved(dst, dst, src) =~= src);
    if t.stage == Stage::Root {
        let kept = w.kept(listing);
        assert forall|n: Seq<u8>| #[trigger] kept.contains(n) implies listing.contains(n)
            && !x.contains(n) by {
            listing.lemma_filter_contains_rev(|n: Seq<u8>| !x.contains(n), n);
            let i = choose|i: int| 0 <= i < kept.len() && kept[i] == n;
            listing.lemma_filter_pred(|n: Seq<u8>| !x.contains(n), i);
        }
        assert forall|n: Seq<u8>| listing.contains(n) && !x.contains(n) implies #[trigger]
            kept.contains(n) by {
            let i = choose|i: int| 0 <= i < listing.len() && listing[i] == n;
            listing.lemma_filter_contains(|n: Seq<u8>| !x.contains(n), i);
        }
        lemma_entries(t, d, x, kept);
        lemma_counted(t, d, x, kept);
        lemma_split(rest, t.of_counted(kept), d, x);
        assert forall|p: Names, n: Node| #[trigger] t.source_has(d, p, n) && p != dst
            implies listing.contains(p[dst.len() as int]) by {
            let q = moved(p, dst, src);
            lemma_below(p, dst);
            assert(q.take(src.len() as int) =~= src);
            assert(q[src.len() as int] == p[dst.len() as int]);
            lemma_listing(d, src, listing, q);
        }
        assert forall|q: Names| #[trigger] t.skips(d, x, q) implies listing.contains(
            q[src.len() as int],
        ) by {
            lemma_listing(d, src, listing, q);
        }
    } else {
        lemma_entries(t, d, x, listing);
        assert(rest.push(t.at(Stage::Seal)) =~= rest + seq![t.at(Stage::Seal)]);
        lemma_split(rest, seq![t.at(Stage::Seal)], d, x);
        lemma_one(t.at(Stage::Seal), d, x);
        lemma_split(rest.push(t.at(Stage::Seal)), t.of_entries(listing), d, x);
        assert forall|p: Names, n: Node| #[trigger] t.source_has(d, p, n) && p != dst
            implies listing.contains(p[dst.len() as int]) by {
            let q = moved(p, dst, src);
            lemma_below(p, dst);
            assert(q.take(src.len() as int) =~= src);
            assert(q[src.len() as int] == p[dst.len() as int]);
            lemma_listing(d, src, listing, q);
        }
        assert forall|q: Names| #[trigger] t.skips(d, x, q) implies q != src && listing.contains(
            q[src.len() as int],
        ) by {
            if q != src {
                lemma_listing(d, src, listing, q);
            }
        }
    }
    assert(after.promised(d, now) =~= w.promised(d, written));
    assert(after.passed_over(d) =~= w.passed_over(d));
}

/// Cloning an entry in one piece, which takes all that is below it along, keeps
/// the promise; so does failing to.
pub proof fn clone_keeps_when_cloned(w: ClonerView, d: Disk, written: Written, cloned: bool)
    requires
        w.at(Stage::Entry),
        cloned ==> cloneable(d, w.todo.last().src.parts),
    ensures
        w.after_entry(cloned).promised(
            d,
            if cloned {
                written.union(
                    Set::new(|x: (Names, Node)| w.todo.last().source_has(d, x.0, x.1)),
                )
            } else {
                written
            },
        ) == w.promised(d, written),
        w.after_entry(cloned).passed_over(d) == w.passed_over(d),
{
    let t = w.todo.last();
    let rest = w.todo.drop_last();
    let x = w.exclude;
    let after = w.after_entry(cloned);
    assert(w.todo =~= rest + seq![t]);
    lemma_split(rest, seq![t], d, x);
    lemma_one(t, d, x);
    if cloned {
        let now = written.union(Set::new(|x: (Names, Node)| t.source_has(d, x.0, x.1)));
        assert(after.promised(d, now) =~= w.promised(d, written));
    } else {
        let u = t.at(Stage::Inspect);
        assert(after.todo =~= rest + seq![u]);
        lemma_split(rest, seq![u], d, x);
        lemma_one(u, d, x);
        assert forall|p: Names, n: Node| #[trigger] t.owes(d, x, p, n) == u.owes(d, x, p, n) by {}
        assert forall|q: Names| #[trigger] t.skips(d, x, q) == u.skips(d, x, q) by {}
        assert(after.promised(d, written) =~= w.promised(d, written));
    }
    assert(after.passed_over(d) =~= w.passed_over(d));
}

/// Finding out the kind of an entry keeps the promise, and one that cannot be
/// cloned is passed over.
pub proof fn clone_keeps_when_inspected(w: ClonerView, d: Disk, written: Written)
    requires
        w.at(Stage::Inspect),
        rooted(d),
        d.contains_key(w.todo.last().src.parts),
    ensures
        w.after_kind(d[w.todo.last().src.parts].kind()).promised(d, written) == w.promised(
            d,
            written,
        ),
        w.after_kind(d[w.todo.last().src.parts].kind()).passed_over(d) == w.passed_over(d),
{
    let t = w.todo.last();
    let rest = w.todo.drop_last();
    let x = w.exclude;
    let src = t.src.parts;
    let dst = t.dst.parts;
    let kind = d[src].kind();
    let after = w.after_kind(kind);
    assert(w.todo =~= rest + seq![t]);
    lemma_split(rest, seq![t], d, x);
    lemma_one(t, d, x);
    assert(moved(dst, dst, src) =~= src);
    if kind != EntryKind::Dir {
        assert forall|p: Names, n: Node| #[trigger] t.source_has(d, p, n) implies p == dst by {
            let q = moved(p, dst, src);
            if p != dst {
                lemma_below(p, dst);
                assert(q.take(src.len() as int) =~= src);
                lemma_only_dirs_hold(d, src, q);
            }
        }
        assert forall|q: Names| #[trigger] t.skips(d, x, q) implies q == src by {
            if q != src {
                lemma_only_dirs_hold(d, src, q);
            }
        }
    }
    if kind == EntryKind::Other {
        if rest.len() > 0 && rest.last().stage == Stage::Count {
            assert(rest =~= rest.drop_last().push(rest.last()));
            lemma_count_owes_nothing(rest.drop_last(), rest.last(), d, x);
        }
        assert forall|q: Names| #[trigger]
            listed_path(after.skipped, q) <==> listed_path(w.skipped, q) || q == src by {
            if listed_path(w.skipped, q) {
                let i = choose|i: int| 0 <= i < w.skipped.len() && (#[trigger] w.skipped[i]).parts == q;
                assert(after.skipped[i].parts == q);
            }
            if q == src {
                assert(after.skipped[w.skipped.len() as int].parts == q);
            }
            if listed_path(after.skipped, q) {
                let i = choose|i: int|
                    0 <= i < after.skipped.len() && (#[trigger] after.skipped[i]).parts == q;
                if i < w.skipped.len() {
                    assert(w.skipped[i].parts == q);
                }
            }
        }
    } else {
        let stage = if kind == EntryKind::Dir {
            Stage::Fill
        } else if kind == EntryKind::Symlink {
            Stage::Link
        } else {
            Stage::Copy
        };
        let u = t.at(stage);
        assert(after.todo =~= rest + seq![u]);
        lemma_split(rest, seq![u], d, x);
        lemma_one(u, d, x);
        assert forall|p: Names, n: Node| #[trigger] t.owes(d, x, p, n) == u.owes(d, x, p, n) by {
            assert(t.owes(d, x, p, n) == t.source_has(d, p, n));
        }
        assert forall|q: Names| #[trigger] t.skips(d, x, q) == u.skips(d, x, q) by {}
    }
    assert(after.promised(d, written) =~= w.promised(d, written));
    assert(after.passed_over(d) =~= w.passed_over(d));
}

/// Making a symlink anew, copying a file and giving permissions keep the
/// promise.
pub proof fn clone_keeps_when_done(w: ClonerView, d: Disk, written: Written)
    requires
        w.at(Stage::Link) || w.at(Stage::Copy) || w.at(Stage::Seal),
        d.contains_key(w.todo.last().src.parts),
    ensures
        w.after_done().promised(
            d,
            written.insert((w.todo.last().dst.parts, d[w.todo.last().src.parts])),
        ) == w.promised(d, written),
        w.after_done().passed_over(d) == w.passed_over(d),
{
    let t = w.todo.last();
    let rest = w.todo.drop_last();
    let x = w.exclude;
    let after = w.after_done();
    let now = written.insert((t.dst.parts, d[t.src.parts]));
    assert(w.todo =~= rest + seq![t]);
    lemma_split(rest, seq![t], d, x);
    lemma_one(t, d, x);
    assert(after.promised(d, now) =~= w.promised(d, written));
    assert(after.passed_over(d) =~= w.passed_over(d));
}

/// Counting an entry keeps the promise.
pub proof fn clone_keeps_when_counted(w: ClonerView, d: Disk, written: Written)
    requires
        w.at(Stage::Count),
    ensures
        w.after_done().promised(d, written) == w.promised(d, written),
        w.after_done().passed_over(d) == w.passed_over(d),
{
    let rest = w.todo.drop_last();
    assert(w.todo =~= rest.push(w.todo.last()));
    lemma_count_owes_nothing(rest, w.todo.last(), d, w.exclude);
    assert(w.after_done().promised(d, written) =~= w.promised(d, written));
    assert(w.after_done().passed_over(d) =~= w.passed_over(d));
}

/// What a clone is told of its next step.
pub enum Told {
    /// The source holds these entries, and the destination was made.
    Listed(Seq<Seq<u8>>),
    /// The source was cloned in one piece, or could not be.
    Cloned(bool),
    /// The source was looked into.
    Inspected,
    /// The step is done.
    Done,
}

impl Told {
    /// Whether this fits the next step, and is true of the disk.
    pub open spec fn is_true(self, w: ClonerView, d: Disk) -> bool {
        let src = w.todo.last().src.parts;
        match self {
            Told::Listed(listing) => {
                &&& w.at(Stage::Root) || w.at(Stage::Fill)
                &&& w.at(Stage::Fill) ==> d.contains_key(src) && d[src] is Dir
                &&& lists(d, src, listing)
            },
            Told::Cloned(cloned) => w.at(Stage::Entry) && (cloned ==> cloneable(d, src)),
            Told::Inspected => w.at(Stage::Inspect) && d.contains_key(src),
            Told::Done => {
                ||| (w.at(Stage::Link) || w.at(Stage::Copy) || w.at(Stage::Seal))
                    && d.contains_key(src)
                ||| w.at(Stage::Count)
            },
        }
    }

    /// The clone once it is told.
    pub open spec fn told(self, w: ClonerView, d: Disk) -> ClonerView {
        match self {
            Told::Listed(listing) => w.after_listed(listing),
            Told::Cloned(cloned) => w.after_entry(cloned),
            Told::Inspected => w.after_kind(d[w.todo.last().src.parts].kind()),
            Told::Done => w.after_done(),
        }
    }

    /// What the step wrote.
    pub open spec fn wrote(self, w: ClonerView, d: Disk) -> Written {
        let t = w.todo.last();
        match self {
            Told::Listed(_) => if w.at(Stage::Root) {
                Set::empty().insert((t.dst.parts, made_at(d, t.dst.parts)))
            } else {
                Set::empty()
            },
            Told::Cloned(true) => Set::new(|x: (Names, Node)| t.source_has(d, x.0, x.1)),
            Told::Done => if w.at(Stage::Count) {
                Set::empty()
            } else {
                Set::empty().insert((t.dst.parts, d[t.src.parts]))
            },
            _ => Set::empty(),
        }
    }
}

/// The clone after it was told all this.
pub open spec fn in_turn(w: ClonerView, d: Disk, all: Seq<Told>) -> ClonerView
    decreases all.len(),
{
    if all.len() == 0 {
        w
    } else {
        all.last().told(in_turn(w, d, all.drop_last()), d)
    }
}

/// What the steps wrote.
pub open spec fn all_written(w: ClonerView, d: Disk, all: Seq<Told>) -> Written
    decreases all.len(),
{
    if all.len() == 0 {
        Set::empty()
    } else {
        let front = all.drop_last();
        all_written(w, d, front).union(all.last().wrote(in_turn(w, d, front), d))
    }
}

/// Whether all that the clone was told is true of the disk.
pub open spec fn all_true(w: ClonerView, d: Disk, all: Seq<Told>) -> bool
    decreases all.len(),
{
    all.len() > 0 ==> all_true(w, d, all.drop_last()) && all.last().is_true(
        in_turn(w, d, all.drop_last()),
        d,
    )
}

proof fn lemma_turns_keep(w: ClonerView, d: Disk, all: Seq<Told>)
    requires
        rooted(d),
        all_true(w, d, all),
    ensures
        in_turn(w, d, all).promised(d, all_written(w, d, all)) == w.promised(d, Set::empty()),
        in_turn(w, d, all).passed_over(d) == w.passed_over(d),
    decreases all.len(),
{
    if all.len() > 0 {
        let front = all.drop_last();
        lemma_turns_keep(w, d, front);
        let v = in_turn(w, d, front);
        let written = all_written(w, d, front);
        let t = v.todo.last();
        let now = all_written(w, d, all);
        match all.last() {
            Told::Listed(listing) => {
                clone_keeps_when_listed(v, d, written, listing);
                if v.at(Stage::Root) {
                    assert(now =~= written.insert((t.dst.parts, made_at(d, t.dst.parts))));
                } else {
                    assert(now =~= written);
                }
            },
            Told::Cloned(cloned) => {
                clone_keeps_when_cloned(v, d, written, cloned);
                if !cloned {
                    assert(now =~= written);
                }
            },
            Told::Inspected => {
                clone_keeps_when_inspected(v, d, written);
                assert(now =~= written);
            },
            Told::Done => {
                if v.at(Stage::Count) {
                    clone_keeps_when_counted(v, d, written);
                    assert(now =~= written);
                } else {
                    clone_keeps_when_done(v, d, written);
                    assert(now =~= written.insert((t.dst.parts, d[t.src.parts])));
                }
            },
        }
    }
}

/// A clone that is told what is true, until nothing is left to do, wrote the
/// destination and all that is in the source, but for what is left out and for
/// sockets, fifos and devices, and nothing else; and it reported those.
pub proof fn clone_comes_to_the_source(
    src: PathView,
    dst: PathView,
    exclude: Seq<Seq<u8>>,
    d: Disk,
    all: Seq<Told>,
)
    requires
        rooted(d),
        all_true(ClonerView::start(src, dst, exclude), d, all),
        in_turn(ClonerView::start(src, dst, exclude), d, all).next() is None,
    ensures
        forall|p: Names, n: Node| #[trigger]
            all_written(ClonerView::start(src, dst, exclude), d, all).contains((p, n)) <==> {
                ||| p == dst.parts && n == made_at(d, dst.parts)
                ||| {
                    let q = moved(p, dst.parts, src.parts);
                    &&& within(p, dst.parts)
                    &&& p != dst.parts
                    &&& !exclude.contains(p[dst.parts.len() as int])
                    &&& d.contains_key(q)
                    &&& d[q] == n
                    &&& !(n is Other)
                }
            },
        forall|q: Names| #[trigger]
            listed_path(in_turn(ClonerView::start(src, dst, exclude), d, all).skipped, q)
                <==> d.contains_key(q) && d[q] is Other && within(q, src.parts) && q != src.parts
                && !exclude.contains(q[src.parts.len() as int]),
{
    let start = ClonerView::start(src, dst, exclude);
    let end = in_turn(start, d, all);
    clone_starts(src, dst, exclude, d);
    lemma_turns_keep(start, d, all);
    clone_finishes(end, d, all_written(start, d, all));
    assert forall|q: Names| #[trigger] listed_path(end.skipped, q) <==> start.passed_over(d).contains(
        q,
    ) by {
        assert(end.passed_over(d).contains(q) == start.passed_over(d).contains(q));
    }
}

/// Whether what the task reads is a socket, a fifo or a device.
spec fn reads_other(t: TaskView, d: Disk) -> bool {
    d.contains_key(t.src.parts) && d[t.src.parts] is Other
}

/// How many tasks are to count an entry that can be cloned.
spec fn to_count(todo: Seq<TaskView>, d: Disk) -> nat
    decreases todo.len(),
{
    if todo.len() == 0 {
        0
    } else {
        to_count(todo.drop_last(), d) + if todo.last().stage == Stage::Count && !reads_other(
            todo.last(),
            d,
        ) {
            1nat
        } else {
            0nat
        }
    }
}

proof fn lemma_to_count_split(a: Seq<TaskView>, b: Seq<TaskView>, d: Disk)
    ensures
        to_count(a + b, d) == to_count(a, d) + to_count(b, d),
    decreases b.len(),
{
    if b.len() == 0 {
        assert(a + b =~= a);
    } else {
        assert((a + b).drop_last() =~= a + b.drop_last());
        lemma_to_count_split(a, b.drop_last(), d);
    }
}

/// Whether no task lists the cloned directory itself or counts.
spec fn ordinary(todo: Seq<TaskView>) -> bool {
    forall|i: int|
        0 <= i < todo.len() ==> (#[trigger] todo[i]).stage != Stage::Root && todo[i].stage
            != Stage::Count
}

proof fn lemma_ordinary_counts_nothing(todo: Seq<TaskView>, d: Disk)
    requires
        ordinary(todo),
    ensures
        to_count(todo, d) == 0,
        covered(todo, d),
        past_root(todo),
    decreases todo.len(),
{
    if todo.len() > 0 {
        let front = todo.drop_last();
        assert forall|i: int| 0 <= i < front.len() implies (#[trigger] front[i]).stage
            != Stage::Root && front[i].stage != Stage::Count by {
            assert(todo[i].stage != Stage::Count);
        }
        lemma_ordinary_counts_nothing(front, d);
        assert(todo[todo.len() - 1].stage != Stage::Count);
    }
}

/// Whether the listing of the cloned directory itself is done with.
spec fn past_root(todo: Seq<TaskView>) -> bool {
    forall|i: int| 0 <= i < todo.len() ==> (#[trigger] todo[i]).stage != Stage::Root
}

/// Whether, if the task at `i` counts, the one above it is of the same entry, and
/// is still to find out that the entry cannot be cloned, where it cannot.
spec fn covered_at(todo: Seq<TaskView>, d: Disk, i: int) -> bool {
    todo[i].stage == Stage::Count ==> {
        &&& i + 1 < todo.len() ==> todo[i + 1].src == todo[i].src
        &&& reads_other(todo[i], d) ==> i + 1 < todo.len() && (todo[i + 1].stage == Stage::Entry
            || todo[i + 1].stage == Stage::Inspect)
    }
}

spec fn covered(todo: Seq<TaskView>, d: Disk) -> bool {
    forall|i: int| 0 <= i < todo.len() ==> #[trigger] covered_at(todo, d, i)
}

/// Tasks stay covered when the last of them gives way to tasks of the same entry.
proof fn lemma_covered(todo: Seq<TaskView>, new: Seq<TaskView>, d: Disk)
    requires
        todo.len() > 0,
        covered(todo, d),
        past_root(todo),
        ordinary(new),
        new.len() > 0 ==> new[0].src == todo.last().src,
        new.len() == 0 || (new[0].stage != Stage::Entry && new[0].stage != Stage::Inspect) ==> {
            ||| !reads_other(todo.last(), d)
            ||| todo.last().stage != Stage::Entry && todo.last().stage != Stage::Inspect
        },
    ensures
        covered(todo.drop_last() + new, d),
        past_root(todo.drop_last() + new),
        to_count(todo.drop_last() + new, d) == to_count(todo.drop_last(), d),
{
    let rest = todo.drop_last();
    let all = rest + new;
    assert forall|i: int| 0 <= i < all.len() implies #[trigger] covered_at(all, d, i) by {
        if i < rest.len() {
            assert(covered_at(todo, d, i));
            assert(all[i] == todo[i]);
        } else {
            assert(all[i] == new[i - rest.len()]);
        }
    }
    assert forall|i: int| 0 <= i < all.len() implies (#[trigger] all[i]).stage != Stage::Root by {
        if i < rest.len() {
            assert(all[i] == todo[i]);
        } else {
            assert(all[i] == new[i - rest.len()]);
        }
    }
    lemma_to_count_split(rest, new, d);
    lemma_ordinary_counts_nothing(new, d);
}

/// The names of the entries of `dir` that are not sockets, fifos or devices.
pub open spec fn cloneable_names(d: Disk, dir: Names, listing: Seq<Seq<u8>>) -> Seq<Seq<u8>> {
    listing.filter(|n: Seq<u8>| !(d[dir.push(n)] is Other))
}

proof fn lemma_to_count_counted(t: TaskView, d: Disk, listing: Seq<Seq<u8>>)
    requires
        forall|n: Seq<u8>| #[trigger] listing.contains(n) ==> d.contains_key(t.src.parts.push(n)),
    ensures
        to_count(t.of_counted(listing), d) == cloneable_names(d, t.src.parts, listing).len(),
        covered(t.of_counted(listing), d),
        past_root(t.of_counted(listing)),
        t.of_counted(listing).len() > 0 ==> t.of_counted(listing).last().stage == Stage::Entry,
    decreases listing.len(),
{
    reveal_with_fuel(Seq::<_>::filter, 2);
    if listing.len() > 0 {
        let p = |n: Seq<u8>| !(d[t.src.parts.push(n)] is Other);
        let later = listing.skip(1);
        let name = listing[0];
        let first = t.of_entry(name);
        let count = first.at(Stage::Count);
        let before = t.of_counted(later);
        let all = t.of_counted(listing);
        assert forall|n: Seq<u8>| #[trigger] later.contains(n) implies d.contains_key(
            t.src.parts.push(n),
        ) by {
            let i = choose|i: int| 0 <= i < later.len() && later[i] == n;
            assert(listing[i + 1] == n);
            assert(listing.contains(n));
        }
        assert(listing.contains(name));
        lemma_to_count_counted(t, d, later);
        assert(all.drop_last() =~= before.push(count));
        assert(before.push(count).drop_last() =~= before);
        assert(to_count(before.push(count), d) == to_count(before, d) + if p(name) {
            1nat
        } else {
            0nat
        });
        assert(to_count(all, d) == to_count(before.push(count), d));
        assert(listing =~= seq![name] + later);
        Seq::filter_distributes_over_add(seq![name], later, p);
        assert(seq![name].drop_last() =~= Seq::empty());
        assert forall|i: int| 0 <= i < all.len() implies #[trigger] covered_at(all, d, i) by {
            if i < before.len() {
                assert(covered_at(before, d, i));
                assert(all[i] == before[i]);
                if i + 1 < before.len() {
                    assert(all[i + 1] == before[i + 1]);
                } else {
                    assert(before.last() == before[i]);
                }
            }
        }
        assert forall|i: int| 0 <= i < all.len() implies (#[trigger] all[i]).stage
            != Stage::Root by {
            if i < before.len() {
                assert(all[i] == before[i]);
            }
        }
    }
}

proof fn lemma_turns_count(
    src: PathView,
    dst: PathView,
    exclude: Seq<Seq<u8>>,
    d: Disk,
    all: Seq<Told>,
)
    requires
        all.len() > 0,
        all_true(ClonerView::start(src, dst, exclude), d, all),
    ensures
        all[0] is Listed,
        past_root(in_turn(ClonerView::start(src, dst, exclude), d, all).todo),
        covered(in_turn(ClonerView::start(src, dst, exclude), d, all).todo, d),
        ({
            let start = ClonerView::start(src, dst, exclude);
            let end = in_turn(start, d, all);
            end.entries + to_count(end.todo, d) == cloneable_names(
                d,
                src.parts,
                start.kept(all[0]->Listed_0),
            ).len()
        }),
    decreases all.len(),
{
    let start = ClonerView::start(src, dst, exclude);
    let front = all.drop_last();
    let v = in_turn(start, d, front);
    let t = v.todo.last();
    let rest = v.todo.drop_last();
    let end = in_turn(start, d, all);
    if front.len() == 0 {
        assert(v == start);
        let listing = all[0]->Listed_0;
        let kept = start.kept(listing);
        assert forall|n: Seq<u8>| #[trigger] kept.contains(n) implies d.contains_key(
            src.parts.push(n),
        ) by {
            listing.lemma_filter_contains_rev(|n: Seq<u8>| !exclude.contains(n), n);
        }
        lemma_to_count_counted(t, d, kept);
        assert(end.todo =~= t.of_counted(kept));
    } else {
        lemma_turns_count(src, dst, exclude, d, front);
        assert(front[0] == all[0]);
        assert(v.todo[v.todo.len() - 1] == t);
        assert(covered_at(v.todo, d, v.todo.len() - 1));
        assert(rest + Seq::empty() =~= rest);
        match all.last() {
            Told::Listed(listing) => {
                let new = seq![t.at(Stage::Seal)] + t.of_entries(listing);
                assert(end.todo =~= rest + new);
                assert(ordinary(new));
                lemma_covered(v.todo, new, d);
            },
            Told::Cloned(cloned) => {
                let path = t.src.parts;
                assert(path.take(path.len() as int) =~= path);
                assert(within(path, path));
                if cloned {
                    lemma_covered(v.todo, Seq::empty(), d);
                } else {
                    let new = seq![t.at(Stage::Inspect)];
                    assert(end.todo =~= rest + new);
                    lemma_covered(v.todo, new, d);
                }
            },
            Told::Inspected => {
                let kind = d[t.src.parts].kind();
                if kind != EntryKind::Other {
                    let new = seq![end.todo.last()];
                    assert(end.todo =~= rest + new);
                    lemma_covered(v.todo, new, d);
                } else {
                    lemma_uncounted(v.todo, d);
                }
            },
            Told::Done => {
                lemma_covered(v.todo, Seq::empty(), d);
            },
        }
    }
}

/// An entry that turns out to be a socket, a fifo or a device goes with the task that
/// would count it.
proof fn lemma_uncounted(todo: Seq<TaskView>, d: Disk)
    requires
        todo.len() > 0,
        covered(todo, d),
        past_root(todo),
        todo.last().stage == Stage::Inspect,
        reads_other(todo.last(), d),
    ensures
        covered(uncounted(todo.drop_last()), d),
        past_root(uncounted(todo.drop_last())),
        to_count(uncounted(todo.drop_last()), d) == to_count(todo, d),
{
    reveal_with_fuel(to_count, 3);
    let rest = todo.drop_last();
    let end = uncounted(rest);
    if rest.len() > 0 {
        assert(covered_at(todo, d, rest.len() - 1));
        assert(todo[rest.len() as int] == todo.last());
        assert(todo[rest.len() - 1] == rest.last());
    }
    assert forall|i: int| 0 <= i < end.len() implies #[trigger] covered_at(end, d, i) by {
        assert(covered_at(todo, d, i));
        assert(end[i] == todo[i]);
        if i + 1 < end.len() {
            assert(end[i + 1] == todo[i + 1]);
        }
    }
    assert forall|i: int| 0 <= i < end.len() implies (#[trigger] end[i]).stage != Stage::Root by {
        assert(end[i] == todo[i]);
    }
}

/// A clone that is told what is true, until nothing is left to do, counted the
/// entries of the cloned directory itself that were cloned: those that are neither
/// left out nor sockets, fifos or devices.
pub proof fn clone_counts_its_entries(
    src: PathView,
    dst: PathView,
    exclude: Seq<Seq<u8>>,
    d: Disk,
    all: Seq<Told>,
)
    requires
        all_true(ClonerView::start(src, dst, exclude), d, all),
        in_turn(ClonerView::start(src, dst, exclude), d, all).next() is None,
    ensures
        all.len() > 0,
        all[0] is Listed,
        in_turn(ClonerView::start(src, dst, exclude), d, all).entries == cloneable_names(
            d,
            src.parts,
            ClonerView::start(src, dst, exclude).kept(all[0]->Listed_0),
        ).len(),
{
    if all.len() > 0 {
        lemma_turns_count(src, dst, exclude, d, all);
    }
}

} // verus!
