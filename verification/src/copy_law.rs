//! Which files a clone copies, and where it writes.

use crate::clone::{uncounted, ClonerView, Stage, TaskView};
use crate::clone_law::{all_true, in_turn, lemma_listing, Told};
use crate::disk::{
    lemma_below, lemma_only_dirs_hold, lemma_through, rooted, within, Disk, EntryKind, Names,
};
use crate::path::PathView;
use vstd::prelude::*;

verus! {

/// Whether `q` is in the source of a clone, below it, and not left out.
pub open spec fn in_source(src: Names, exclude: Seq<Seq<u8>>, q: Names) -> bool {
    within(q, src) && q != src && !exclude.contains(q[src.len() as int])
}

/// Whether a file is at `q`.
pub open spec fn has_file(d: Disk, q: Names) -> bool {
    d.contains_key(q) && d[q] is File
}

/// Whether `q` was cloned in one piece, by itself or along with what holds it.
pub open spec fn cloned_whole(w: ClonerView, d: Disk, all: Seq<Told>, q: Names) -> bool
    decreases all.len(),
{
    if all.len() == 0 {
        false
    } else {
        let front = all.drop_last();
        ||| cloned_whole(w, d, front, q)
        ||| all.last() == Told::Cloned(true) && within(
            q,
            in_turn(w, d, front).todo.last().src.parts,
        )
    }
}

/// The files of the source that were not cloned in one piece.
pub open spec fn files_to_copy(
    src: PathView,
    dst: PathView,
    exclude: Seq<Seq<u8>>,
    d: Disk,
    all: Seq<Told>,
) -> Set<Names> {
    Set::new(
        |q: Names|
            has_file(d, q) && in_source(src.parts, exclude, q) && !cloned_whole(
                ClonerView::start(src, dst, exclude),
                d,
                all,
                q,
            ),
    )
}

/// The files that were copied, in order.
spec fn copies(w: ClonerView, d: Disk, all: Seq<Told>) -> Seq<Names>
    decreases all.len(),
{
    if all.len() == 0 {
        Seq::empty()
    } else {
        let front = all.drop_last();
        let v = in_turn(w, d, front);
        if all.last() == Told::Done && v.at(Stage::Copy) {
            copies(w, d, front).push(v.todo.last().src.parts)
        } else {
            copies(w, d, front)
        }
    }
}

/// How often `q` is in the list.
spec fn times(s: Seq<Names>, q: Names) -> nat
    decreases s.len(),
{
    if s.len() == 0 {
        0
    } else {
        times(s.drop_last(), q) + if s.last() == q {
            1nat
        } else {
            0nat
        }
    }
}

/// How often `q` was cloned in one piece.
spec fn times_whole(w: ClonerView, d: Disk, all: Seq<Told>, q: Names) -> nat
    decreases all.len(),
{
    if all.len() == 0 {
        0
    } else {
        let front = all.drop_last();
        times_whole(w, d, front, q) + if all.last() == Told::Cloned(true) && within(
            q,
            in_turn(w, d, front).todo.last().src.parts,
        ) {
            1nat
        } else {
            0nat
        }
    }
}

/// Whether the task and what comes of it will take care of a file at `q`.
spec fn takes(t: TaskView, exclude: Seq<Seq<u8>>, q: Names) -> bool {
    match t.stage {
        Stage::Root => in_source(t.src.parts, exclude, q),
        Stage::Entry | Stage::Inspect | Stage::Fill | Stage::Copy => within(q, t.src.parts),
        Stage::Link | Stage::Seal | Stage::Count => false,
    }
}

/// How many tasks will take care of a file at `q`.
spec fn takers(todo: Seq<TaskView>, exclude: Seq<Seq<u8>>, q: Names) -> nat
    decreases todo.len(),
{
    if todo.len() == 0 {
        0
    } else {
        takers(todo.drop_last(), exclude, q) + if takes(todo.last(), exclude, q) {
            1nat
        } else {
            0nat
        }
    }
}

proof fn lemma_takers_split(a: Seq<TaskView>, b: Seq<TaskView>, exclude: Seq<Seq<u8>>, q: Names)
    ensures
        takers(a + b, exclude, q) == takers(a, exclude, q) + takers(b, exclude, q),
    decreases b.len(),
{
    if b.len() == 0 {
        assert(a + b =~= a);
    } else {
        assert((a + b).drop_last() =~= a + b.drop_last());
        lemma_takers_split(a, b.drop_last(), exclude, q);
    }
}

proof fn lemma_takers_one(t: TaskView, exclude: Seq<Seq<u8>>, q: Names)
    ensures
        takers(seq![t], exclude, q) == if takes(t, exclude, q) {
            1nat
        } else {
            0nat
        },
{
    reveal_with_fuel(takers, 2);
    assert(seq![t].drop_last() =~= Seq::empty());
}

/// One entry of a directory takes care of what is below the directory.
proof fn lemma_takers_entries(
    t: TaskView,
    listing: Seq<Seq<u8>>,
    exclude: Seq<Seq<u8>>,
    q: Names,
)
    requires
        listing.no_duplicates(),
    ensures
        takers(t.of_entries(listing), exclude, q) == if within(q, t.src.parts) && q != t.src.parts
            && listing.contains(q[t.src.parts.len() as int]) {
            1nat
        } else {
            0nat
        },
    decreases listing.len(),
{
    let src = t.src.parts;
    if listing.len() > 0 {
        let front = listing.drop_last();
        let name = listing.last();
        let first = t.of_entry(name);
        let at = q[src.len() as int];
        assert(t.of_entries(listing) =~= seq![first] + t.of_entries(front));
        lemma_takers_split(seq![first], t.of_entries(front), exclude, q);
        lemma_takers_one(first, exclude, q);
        lemma_takers_entries(t, front, exclude, q);
        if within(q, src.push(name)) {
            lemma_through(q, src, name);
        }
        if within(q, src) && q != src {
            lemma_below(q, src);
        }
        assert(listing[listing.len() - 1] == name);
        assert(listing.contains(name));
        if front.contains(at) {
            let i = choose|i: int| 0 <= i < front.len() && front[i] == at;
            assert(listing[i] == at);
            assert(listing.contains(at));
        }
        if listing.contains(at) && at != name {
            let i = choose|i: int| 0 <= i < listing.len() && listing[i] == at;
            assert(front[i] == at);
        }
    }
}

/// Counting takes care of nothing.
proof fn lemma_takers_counted(
    t: TaskView,
    listing: Seq<Seq<u8>>,
    exclude: Seq<Seq<u8>>,
    q: Names,
)
    ensures
        takers(t.of_counted(listing), exclude, q) == takers(t.of_entries(listing), exclude, q),
    decreases listing.len(),
{
    if listing.len() == 0 {
        assert(t.of_counted(listing) =~= t.of_entries(listing));
    } else {
        let later = listing.skip(1);
        let first = t.of_entry(listing[0]);
        let count = first.at(Stage::Count);
        lemma_takers_counted(t, later, exclude, q);
        assert(t.of_counted(listing) =~= t.of_counted(later) + seq![count] + seq![first]);
        assert(t.of_entries(listing) =~= t.of_entries(later) + seq![first]);
        lemma_takers_split(t.of_counted(later) + seq![count], seq![first], exclude, q);
        lemma_takers_split(t.of_counted(later), seq![count], exclude, q);
        lemma_takers_split(t.of_entries(later), seq![first], exclude, q);
        lemma_takers_one(count, exclude, q);
    }
}

/// Whether what is to be copied is a file.
spec fn copies_files(todo: Seq<TaskView>, d: Disk) -> bool {
    forall|i: int|
        0 <= i < todo.len() && (#[trigger] todo[i]).stage == Stage::Copy ==> has_file(
            d,
            todo[i].src.parts,
        )
}

proof fn lemma_copies_files_join(a: Seq<TaskView>, b: Seq<TaskView>, d: Disk)
    requires
        copies_files(a, d),
        copies_files(b, d),
    ensures
        copies_files(a + b, d),
{
    let c = a + b;
    assert forall|i: int| 0 <= i < c.len() && (#[trigger] c[i]).stage == Stage::Copy implies has_file(
        d,
        c[i].src.parts,
    ) by {
        if i < a.len() {
            assert(a[i] == c[i]);
        } else {
            assert(b[i - a.len()] == c[i]);
        }
    }
}

proof fn lemma_counted_copies_nothing(t: TaskView, listing: Seq<Seq<u8>>, d: Disk)
    ensures
        copies_files(t.of_counted(listing), d),
    decreases listing.len(),
{
    if listing.len() > 0 {
        let later = listing.skip(1);
        let first = t.of_entry(listing[0]);
        lemma_counted_copies_nothing(t, later, d);
        assert(t.of_counted(listing) =~= t.of_counted(later) + seq![
            first.at(Stage::Count),
            first,
        ]);
        lemma_copies_files_join(t.of_counted(later), seq![first.at(Stage::Count), first], d);
    }
}

/// After every step, each file of the source is taken care of once: it was copied, or
/// it was cloned in one piece, or one task will take care of it.
proof fn lemma_each_file_once(
    src: PathView,
    dst: PathView,
    exclude: Seq<Seq<u8>>,
    d: Disk,
    all: Seq<Told>,
)
    requires
        rooted(d),
        all_true(ClonerView::start(src, dst, exclude), d, all),
    ensures
        ({
            let start = ClonerView::start(src, dst, exclude);
            let end = in_turn(start, d, all);
            &&& end.exclude == exclude
            &&& end.copied == copies(start, d, all).len()
            &&& copies_files(end.todo, d)
            &&& forall|i: int|
                0 <= i < copies(start, d, all).len() ==> has_file(
                    d,
                    #[trigger] copies(start, d, all)[i],
                )
            &&& forall|q: Names| #[trigger]
                has_file(d, q) ==> times(copies(start, d, all), q) + times_whole(start, d, all, q)
                    + takers(end.todo, exclude, q) == if in_source(src.parts, exclude, q) {
                    1nat
                } else {
                    0nat
                }
        }),
    decreases all.len(),
{
    let start = ClonerView::start(src, dst, exclude);
    let end = in_turn(start, d, all);
    if all.len() == 0 {
        assert forall|q: Names| #[trigger] has_file(d, q) implies takers(end.todo, exclude, q)
            == if in_source(src.parts, exclude, q) {
            1nat
        } else {
            0nat
        } by {
            lemma_takers_one(start.todo[0], exclude, q);
            assert(start.todo =~= seq![start.todo[0]]);
        }
    } else {
        let front = all.drop_last();
        let v = in_turn(start, d, front);
        let t = v.todo.last();
        let rest = v.todo.drop_last();
        let before = copies(start, d, front);
        let now = copies(start, d, all);
        lemma_each_file_once(src, dst, exclude, d, front);
        assert(v.todo =~= rest + seq![t]);
        assert(v.todo[v.todo.len() - 1] == t);
        assert(copies_files(rest, d)) by {
            assert forall|i: int|
                0 <= i < rest.len() && (#[trigger] rest[i]).stage == Stage::Copy implies has_file(
                d,
                rest[i].src.parts,
            ) by {
                assert(v.todo[i] == rest[i]);
            }
        }
        assert(now.len() > before.len() ==> now.drop_last() =~= before);
        // how the tasks change, for one file
        assert forall|q: Names| #[trigger] has_file(d, q) implies times(now, q) + times_whole(
            start,
            d,
            all,
            q,
        ) + takers(end.todo, exclude, q) == times(before, q) + times_whole(start, d, front, q)
            + takers(v.todo, exclude, q) by {
            lemma_takers_split(rest, seq![t], exclude, q);
            lemma_takers_one(t, exclude, q);
            lemma_one_file(v, d, all.last(), q);
        }
        lemma_stays_files(v, d, all.last());
        assert forall|i: int| 0 <= i < now.len() implies has_file(d, #[trigger] now[i]) by {
            if i < before.len() {
                assert(now[i] == before[i]);
            }
        }
    }
}

/// What a step does to the tasks that will take care of a file.
proof fn lemma_one_file(w: ClonerView, d: Disk, told: Told, q: Names)
    requires
        rooted(d),
        told.is_true(w, d),
        copies_files(w.todo, d),
        has_file(d, q),
    ensures
        ({
            let t = w.todo.last();
            let here = takes(t, w.exclude, q);
            let after = takers(told.told(w, d).todo, w.exclude, q);
            let kept = takers(w.todo.drop_last(), w.exclude, q);
            after == kept + if here && told != Told::Cloned(true) && !(told == Told::Done && w.at(
                Stage::Copy,
            )) {
                1nat
            } else {
                0nat
            }
        }),
        told == Told::Done && w.at(Stage::Copy) ==> (takes(w.todo.last(), w.exclude, q) <==> q
            == w.todo.last().src.parts),
{
    let t = w.todo.last();
    let rest = w.todo.drop_last();
    let x = w.exclude;
    let src = t.src.parts;
    let end = told.told(w, d);
    assert(w.todo[w.todo.len() - 1] == t);
    assert(src.take(src.len() as int) =~= src);
    match told {
        Told::Listed(listing) => {
            if within(q, src) && q != src {
                lemma_listing(d, src, listing, q);
            }
            if t.stage == Stage::Root {
                let kept = w.kept(listing);
                lemma_kept(w, listing);
                lemma_takers_counted(t, kept, x, q);
                lemma_takers_entries(t, kept, x, q);
                lemma_takers_split(rest, t.of_counted(kept), x, q);
            } else {
                let seal = t.at(Stage::Seal);
                assert(end.todo =~= rest + seq![seal] + t.of_entries(listing));
                lemma_takers_split(rest + seq![seal], t.of_entries(listing), x, q);
                lemma_takers_split(rest, seq![seal], x, q);
                lemma_takers_one(seal, x, q);
                lemma_takers_entries(t, listing, x, q);
            }
        },
        Told::Cloned(cloned) => {
            if !cloned {
                let u = t.at(Stage::Inspect);
                assert(end.todo =~= rest + seq![u]);
                lemma_takers_split(rest, seq![u], x, q);
                lemma_takers_one(u, x, q);
            }
        },
        Told::Inspected => {
            let kind = d[src].kind();
            if kind != EntryKind::Dir && within(q, src) && q != src {
                lemma_only_dirs_hold(d, src, q);
            }
            if kind != EntryKind::Other {
                let u = end.todo.last();
                assert(end.todo =~= rest + seq![u]);
                lemma_takers_split(rest, seq![u], x, q);
                lemma_takers_one(u, x, q);
            } else if rest.len() > 0 && rest.last().stage == Stage::Count {
                assert(takers(uncounted(rest), x, q) == takers(rest, x, q));
            }
        },
        Told::Done => {
            if w.at(Stage::Copy) && within(q, src) && q != src {
                lemma_only_dirs_hold(d, src, q);
            }
        },
    }
}

/// The entries that are not left out are those of the listing that are not excluded,
/// each once.
proof fn lemma_kept(w: ClonerView, listing: Seq<Seq<u8>>)
    requires
        listing.no_duplicates(),
    ensures
        w.kept(listing).no_duplicates(),
        forall|n: Seq<u8>| #[trigger]
            w.kept(listing).contains(n) <==> listing.contains(n) && !w.exclude.contains(n),
    decreases listing.len(),
{
    reveal_with_fuel(Seq::<_>::filter, 1);
    let p = |n: Seq<u8>| !w.exclude.contains(n);
    let kept = listing.filter(p);
    assert forall|n: Seq<u8>| #[trigger] kept.contains(n) <==> listing.contains(n) && p(n) by {
        if kept.contains(n) {
            let i = choose|i: int| 0 <= i < kept.len() && kept[i] == n;
            listing.lemma_filter_pred(p, i);
            listing.lemma_filter_contains_rev(p, n);
        }
        if listing.contains(n) && p(n) {
            let i = choose|i: int| 0 <= i < listing.len() && listing[i] == n;
            listing.lemma_filter_contains(p, i);
        }
    }
    if listing.len() > 0 {
        let front = listing.drop_last();
        lemma_kept(w, front);
        let g = w.kept(front);
        if p(listing.last()) {
            assert(kept == g.push(listing.last()));
            if g.contains(listing.last()) {
                let i = choose|i: int| 0 <= i < front.len() && front[i] == listing.last();
                assert(listing[i] == listing[listing.len() - 1]);
            }
        }
    }
}

/// What is to be copied stays files.
proof fn lemma_stays_files(w: ClonerView, d: Disk, told: Told)
    requires
        told.is_true(w, d),
        copies_files(w.todo.drop_last(), d),
    ensures
        copies_files(told.told(w, d).todo, d),
{
    let t = w.todo.last();
    let rest = w.todo.drop_last();
    let end = told.told(w, d);
    match told {
        Told::Listed(listing) => {
            if t.stage == Stage::Root {
                let kept = w.kept(listing);
                lemma_counted_copies_nothing(t, kept, d);
                lemma_copies_files_join(rest, t.of_counted(kept), d);
            } else {
                let new = seq![t.at(Stage::Seal)] + t.of_entries(listing);
                assert(end.todo =~= rest + new);
                lemma_copies_files_join(rest, new, d);
            }
        },
        Told::Cloned(cloned) => {
            if !cloned {
                let new = seq![t.at(Stage::Inspect)];
                assert(end.todo =~= rest + new);
                lemma_copies_files_join(rest, new, d);
            }
        },
        Told::Inspected => {
            if d[t.src.parts].kind() != EntryKind::Other {
                let new = seq![end.todo.last()];
                assert(end.todo =~= rest + new);
                lemma_copies_files_join(rest, new, d);
            } else {
                assert forall|i: int|
                    0 <= i < end.todo.len() && (#[trigger] end.todo[i]).stage
                        == Stage::Copy implies has_file(d, end.todo[i].src.parts) by {
                    assert(rest[i] == end.todo[i]);
                }
            }
        },
        Told::Done => {},
    }
}

proof fn lemma_times(s: Seq<Names>, q: Names)
    ensures
        times(s, q) > 0 <==> s.contains(q),
    decreases s.len(),
{
    if s.len() > 0 {
        let front = s.drop_last();
        lemma_times(front, q);
        if s.contains(q) && s.last() != q {
            let i = choose|i: int| 0 <= i < s.len() && s[i] == q;
            assert(front[i] == q);
        }
        if front.contains(q) {
            let i = choose|i: int| 0 <= i < front.len() && front[i] == q;
            assert(s[i] == q);
        }
        if s.last() == q {
            assert(s[s.len() - 1] == q);
        }
    }
}

/// What is in a list no more than once is there once.
proof fn lemma_once(s: Seq<Names>)
    requires
        forall|i: int| 0 <= i < s.len() ==> times(s, #[trigger] s[i]) <= 1,
    ensures
        s.no_duplicates(),
    decreases s.len(),
{
    if s.len() > 0 {
        let front = s.drop_last();
        let last = s.last();
        assert(s[s.len() - 1] == last);
        lemma_times(front, last);
        assert(!front.contains(last));
        assert forall|i: int| 0 <= i < front.len() implies times(front, #[trigger] front[i]) <= 1 by {
            assert(s[i] == front[i]);
        }
        lemma_once(front);
        assert forall|i: int, j: int| 0 <= i < s.len() && 0 <= j < s.len() && i != j implies s[i]
            != s[j] by {
            if i < front.len() && j < front.len() {
                assert(front[i] != front[j]);
            } else if i < front.len() {
                assert(front[i] == s[i]);
                assert(front.contains(s[i]));
            } else if j < front.len() {
                assert(front[j] == s[j]);
                assert(front.contains(s[j]));
            }
        }
    }
}

proof fn lemma_times_whole(w: ClonerView, d: Disk, all: Seq<Told>, q: Names)
    ensures
        times_whole(w, d, all, q) > 0 <==> cloned_whole(w, d, all, q),
    decreases all.len(),
{
    if all.len() > 0 {
        lemma_times_whole(w, d, all.drop_last(), q);
    }
}

/// A clone that is told what is true, until nothing is left to do, copied each file of
/// the source that is not left out and was not cloned in one piece, and counted those.
pub proof fn clone_counts_its_copies(
    src: PathView,
    dst: PathView,
    exclude: Seq<Seq<u8>>,
    d: Disk,
    all: Seq<Told>,
)
    requires
        rooted(d),
        all_true(ClonerView::start(src, dst, exclude), d, all),
        in_turn(ClonerView::start(src, dst, exclude), d, all).next() is None,
    ensures
        files_to_copy(src, dst, exclude, d, all).finite(),
        in_turn(ClonerView::start(src, dst, exclude), d, all).copied == files_to_copy(
            src,
            dst,
            exclude,
            d,
            all,
        ).len(),
{
    let start = ClonerView::start(src, dst, exclude);
    let end = in_turn(start, d, all);
    let s = copies(start, d, all);
    let files = files_to_copy(src, dst, exclude, d, all);
    lemma_each_file_once(src, dst, exclude, d, all);
    assert(end.todo.len() == 0);
    assert forall|i: int| 0 <= i < s.len() implies times(s, #[trigger] s[i]) <= 1 by {
        assert(has_file(d, s[i]));
    }
    lemma_once(s);
    assert forall|q: Names| #[trigger] s.to_set().contains(q) <==> files.contains(q) by {
        lemma_times(s, q);
        lemma_times_whole(start, d, all, q);
        if s.contains(q) {
            let i = choose|i: int| 0 <= i < s.len() && s[i] == q;
            assert(has_file(d, s[i]));
        }
    }
    assert(s.to_set() =~= files);
    s.unique_seq_to_set();
}

/// A clone that is told what is true reads in its source and writes in its destination
/// alone, at every step.
pub proof fn clone_stays_in_its_places(
    src: PathView,
    dst: PathView,
    exclude: Seq<Seq<u8>>,
    d: Disk,
    all: Seq<Told>,
)
    requires
        all_true(ClonerView::start(src, dst, exclude), d, all),
    ensures
        forall|i: int|
            0 <= i < in_turn(ClonerView::start(src, dst, exclude), d, all).todo.len() ==> in_place(
                src,
                dst,
                #[trigger] in_turn(ClonerView::start(src, dst, exclude), d, all).todo[i],
            ),
    decreases all.len(),
{
    let start = ClonerView::start(src, dst, exclude);
    let end = in_turn(start, d, all);
    if all.len() == 0 {
        assert(src.parts.take(src.parts.len() as int) =~= src.parts);
        assert(dst.parts.take(dst.parts.len() as int) =~= dst.parts);
    } else {
        let front = all.drop_last();
        let v = in_turn(start, d, front);
        let t = v.todo.last();
        let rest = v.todo.drop_last();
        clone_stays_in_its_places(src, dst, exclude, d, front);
        assert(in_place(src, dst, v.todo[v.todo.len() - 1]));
        assert(in_place(src, dst, t));
        if let Told::Listed(listing) = all.last() {
            let names = if t.stage == Stage::Root {
                v.kept(listing)
            } else {
                listing
            };
            lemma_children_in_place(src, dst, t, names);
            let n = rest.len();
            assert forall|i: int| 0 <= i < end.todo.len() implies in_place(
                src,
                dst,
                #[trigger] end.todo[i],
            ) by {
                if i < n {
                    assert(end.todo[i] == v.todo[i]);
                } else if t.stage == Stage::Root {
                    assert(end.todo[i] == t.of_counted(names)[i - n]);
                } else if i > n {
                    assert(end.todo[i] == t.of_entries(names)[i - n - 1]);
                }
            }
        } else {
            assert forall|i: int| 0 <= i < end.todo.len() implies in_place(
                src,
                dst,
                #[trigger] end.todo[i],
            ) by {
                if i < rest.len() {
                    assert(end.todo[i] == v.todo[i]);
                }
            }
        }
    }
}

/// Whether a task reads in the source and writes in the destination.
pub open spec fn in_place(src: PathView, dst: PathView, t: TaskView) -> bool {
    within(t.src.parts, src.parts) && within(t.dst.parts, dst.parts)
}

proof fn lemma_entry_in_place(src: PathView, dst: PathView, t: TaskView, name: Seq<u8>)
    requires
        in_place(src, dst, t),
    ensures
        in_place(src, dst, t.of_entry(name)),
{
    let (a, b) = (t.src.parts, t.dst.parts);
    assert(a.push(name).take(src.parts.len() as int) =~= a.take(src.parts.len() as int));
    assert(b.push(name).take(dst.parts.len() as int) =~= b.take(dst.parts.len() as int));
}

proof fn lemma_children_in_place(
    src: PathView,
    dst: PathView,
    t: TaskView,
    listing: Seq<Seq<u8>>,
)
    requires
        in_place(src, dst, t),
    ensures
        forall|i: int|
            0 <= i < t.of_entries(listing).len() ==> in_place(
                src,
                dst,
                #[trigger] t.of_entries(listing)[i],
            ),
        forall|i: int|
            0 <= i < t.of_counted(listing).len() ==> in_place(
                src,
                dst,
                #[trigger] t.of_counted(listing)[i],
            ),
    decreases listing.len(),
{
    assert forall|i: int| 0 <= i < t.of_entries(listing).len() implies in_place(
        src,
        dst,
        #[trigger] t.of_entries(listing)[i],
    ) by {
        lemma_entry_in_place(src, dst, t, listing[listing.len() - 1 - i]);
    }
    if listing.len() > 0 {
        let later = listing.skip(1);
        let all = t.of_counted(listing);
        let before = t.of_counted(later);
        lemma_children_in_place(src, dst, t, later);
        lemma_entry_in_place(src, dst, t, listing[0]);
        assert forall|i: int| 0 <= i < all.len() implies in_place(src, dst, #[trigger] all[i]) by {
            if i < before.len() {
                assert(all[i] == before[i]);
            }
        }
    }
}

} // verus!
