//! What the actions keep: a disk on which everything lies in a directory stays
//! such a disk.

use crate::action::{
    after, after_all, clone_of, content, is_bare, made, renamed, without, written_at, ActionView,
};
use crate::clone::ClonerView;
use crate::clone_law::{
    all_true, all_written, clone_comes_to_the_source, clone_starts, in_turn, made_at, Told, Written,
};
use crate::disk::{
    lemma_below, lemma_only_dirs_hold, lemma_through, moved, new_dir, rooted, within, Disk, Names,
    Node,
};
use crate::ops::move_actions;
use crate::path::PathView;
use vstd::prelude::*;

verus! {

/// Whether two disks hold the same at `p`.
pub open spec fn same_at(d: Disk, e: Disk, p: Names) -> bool {
    d.contains_key(p) == e.contains_key(p) && (d.contains_key(p) ==> d[p] == e[p])
}

/// Whether a disk holds at `p` what another holds at `q`.
pub open spec fn same_node(d: Disk, p: Names, e: Disk, q: Names) -> bool {
    d.contains_key(p) == e.contains_key(q) && (d.contains_key(p) ==> d[p] == e[q])
}

/// Whether everything but the top lies in a directory.
pub open spec fn tree_like(t: Map<Names, Node>) -> bool {
    forall|x: Names, n: Seq<u8>| #[trigger]
        t.contains_key(x.push(n)) && x.len() > 0 ==> t.contains_key(x) && t[x] is Dir
}

/// Whether the path `p` passes through one of the entries `m` of `dir`.
pub open spec fn through(p: Names, dir: Names, m: Seq<Seq<u8>>) -> bool {
    p.len() > dir.len() && within(p, dir) && m.contains(p[dir.len() as int])
}

/// The disk after the entries `m` of `a` were moved to `b`.
pub open spec fn shifted(d: Disk, a: Names, b: Names, m: Seq<Seq<u8>>) -> Disk {
    Map::new(
        |p: Names|
            if through(p, b, m) {
                d.contains_key(moved(p, b, a))
            } else {
                d.contains_key(p) && !through(p, a, m)
            },
        |p: Names|
            if through(p, b, m) {
                d[moved(p, b, a)]
            } else {
                d[p]
            },
    )
}

/// What is within a directory is the directory, followed by the path from there.
pub proof fn lemma_relative(p: Names, base: Names)
    requires
        within(p, base),
    ensures
        base + p.skip(base.len() as int) == p,
{
    assert(p.take(base.len() as int) =~= base);
    assert(base + p.skip(base.len() as int) =~= p);
}

/// A directory followed by a path is within the directory.
pub proof fn lemma_joined(base: Names, x: Names)
    ensures
        within(base + x, base),
        (base + x).skip(base.len() as int) == x,
{
    assert((base + x).take(base.len() as int) =~= base);
    assert((base + x).skip(base.len() as int) =~= x);
}

/// What is within `p` is within whatever `p` is within.
pub proof fn lemma_within_within(q: Names, p: Names, dir: Names)
    requires
        within(q, p),
        within(p, dir),
    ensures
        within(q, dir),
{
    assert(q.take(p.len() as int) =~= p);
    assert(p.take(dir.len() as int) =~= dir);
    assert(q.take(dir.len() as int) =~= dir);
}

/// Two paths that some path is within are within one another.
pub proof fn lemma_comparable(p: Names, a: Names, b: Names)
    requires
        within(p, a),
        within(p, b),
        a.len() <= b.len(),
    ensures
        within(b, a),
        forall|i: int| 0 <= i < a.len() ==> p[i] == a[i],
        forall|i: int| 0 <= i < b.len() ==> p[i] == b[i],
{
    assert(p.take(a.len() as int) =~= a);
    assert(p.take(b.len() as int) =~= b);
    assert forall|i: int| 0 <= i < a.len() implies p[i] == a[i] by {
        assert(p.take(a.len() as int)[i] == a[i]);
    }
    assert forall|i: int| 0 <= i < b.len() implies p[i] == b[i] by {
        assert(p.take(b.len() as int)[i] == b[i]);
    }
    assert(b.take(a.len() as int) =~= a);
}

/// An entry of what is within a directory is within it; and so is what holds
/// something in the directory, unless it holds the directory itself.
pub proof fn lemma_within_push(p: Names, n: Seq<u8>, dir: Names)
    ensures
        within(p, dir) ==> within(p.push(n), dir),
        within(p.push(n), dir) ==> within(p, dir) || p.push(n) == dir,
{
    if within(p, dir) {
        assert(p.push(n).take(dir.len() as int) =~= p.take(dir.len() as int));
    }
    if within(p.push(n), dir) {
        if dir.len() == p.len() + 1 {
            assert(p.push(n).take(dir.len() as int) =~= p.push(n));
        } else {
            assert(p.push(n).take(dir.len() as int) =~= p.take(dir.len() as int));
        }
    }
}

pub proof fn lemma_without_rooted(d: Disk, base: Names)
    requires
        rooted(d),
    ensures
        rooted(without(d, base)),
{
    let e = without(d, base);
    assert forall|p: Names, n: Seq<u8>| #[trigger] e.contains_key(p.push(n)) implies e.contains_key(
        p,
    ) && e[p] is Dir by {
        lemma_within_push(p, n, base);
        assert(d.contains_key(p.push(n)));
    }
}

pub proof fn lemma_made_rooted(d: Disk, p: Names)
    requires
        rooted(d),
        p.len() > 0,
        d.contains_key(p.drop_last()),
        d[p.drop_last()] is Dir,
    ensures
        made(d, p) == if d.contains_key(p) {
            d
        } else {
            d.insert(p, new_dir())
        },
        rooted(made(d, p)),
{
    let up = p.drop_last();
    assert(p.take(p.len() as int) =~= p);
    assert forall|q: Names| #[trigger] within(p, q) && q != p implies d.contains_key(q) by {
        assert(q.len() < p.len()) by {
            if q.len() == p.len() {
                assert(p.take(q.len() as int) =~= q);
            }
        }
        assert(up.take(q.len() as int) =~= p.take(q.len() as int));
        if q != up {
            lemma_only_dirs_hold(d, q, up);
        }
    }
    let e = if d.contains_key(p) {
        d
    } else {
        d.insert(p, new_dir())
    };
    assert(made(d, p) =~= e);
    assert forall|q: Names, n: Seq<u8>| #[trigger] e.contains_key(q.push(n)) implies e.contains_key(
        q,
    ) && e[q] is Dir by {
        if q.push(n) == p && !d.contains_key(p) {
            assert(q =~= up);
        } else {
            assert(d.contains_key(q.push(n)));
        }
    }
}

pub proof fn lemma_dropped_rooted(d: Disk, p: Names)
    requires
        rooted(d),
        is_bare(d, p),
    ensures
        rooted(d.remove(p)),
{
    let e = d.remove(p);
    assert forall|q: Names, n: Seq<u8>| #[trigger] e.contains_key(q.push(n)) implies e.contains_key(
        q,
    ) && e[q] is Dir by {
        assert(d.contains_key(q.push(n)));
    }
}

pub proof fn lemma_written_rooted(d: Disk, base: Names, t: Map<Names, Node>)
    requires
        rooted(d),
        base.len() > 0,
        d.contains_key(base.drop_last()),
        d[base.drop_last()] is Dir,
        forall|p: Names| #[trigger] d.contains_key(p) ==> !within(p, base),
        tree_like(t),
        forall|x: Names| #[trigger] t.contains_key(x) ==> x.len() > 0,
    ensures
        rooted(written_at(made(d, base), base, t)),
        content(written_at(made(d, base), base, t), base) == t,
        written_at(made(d, base), base, t).contains_key(base),
        written_at(made(d, base), base, t)[base] == new_dir(),
        forall|p: Names|
            !within(p, base) ==> #[trigger] same_at(d, written_at(made(d, base), base, t), p),
{
    let f = made(d, base);
    let e = written_at(f, base, t);
    let k = base.len() as int;
    assert(base.take(k) =~= base);
    lemma_made_rooted(d, base);
    assert(f == d.insert(base, new_dir()));
    assert(!t.contains_key(base.skip(k)));
    assert forall|p: Names, n: Seq<u8>| #[trigger] e.contains_key(p.push(n)) implies e.contains_key(
        p,
    ) && e[p] is Dir by {
        let q = p.push(n);
        lemma_within_push(p, n, base);
        if within(q, base) {
            if q == base {
                assert(p =~= base.drop_last());
                assert(p.len() < base.len());
                assert(!within(p, base));
            } else {
                assert(within(p, base));
                assert(q.skip(k) =~= p.skip(k).push(n));
                if p.skip(k).len() == 0 {
                    assert(p =~= base) by {
                        lemma_relative(p, base);
                    }
                }
            }
        } else {
            assert(d.contains_key(q));
        }
    }
    assert forall|x: Names| content(e, base).contains_key(x) == t.contains_key(x) by {
        lemma_joined(base, x);
        if x.len() > 0 {
            assert(base + x != base) by {
                assert((base + x).len() > base.len());
            }
        }
    }
    assert forall|x: Names| t.contains_key(x) implies #[trigger] content(e, base)[x] == t[x] by {
        lemma_joined(base, x);
    }
    assert(content(e, base) =~= t);
}

pub proof fn lemma_renamed_rooted(d: Disk, from: Names, to: Names)
    requires
        rooted(d),
        to.len() > 0,
        d.contains_key(to.drop_last()),
        d[to.drop_last()] is Dir,
        !within(to, from),
        !within(from, to),
    ensures
        rooted(renamed(d, from, to)),
        content(renamed(d, from, to), to) == content(d, from),
        same_node(d, from, renamed(d, from, to), to),
        forall|p: Names|
            !within(p, to) && !within(p, from) ==> #[trigger] same_at(d, renamed(d, from, to), p),
        forall|p: Names| within(p, from) ==> !#[trigger] renamed(d, from, to).contains_key(p),
{
    let e = renamed(d, from, to);
    assert forall|p: Names, n: Seq<u8>| #[trigger] e.contains_key(p.push(n)) implies e.contains_key(
        p,
    ) && e[p] is Dir by {
        let q = p.push(n);
        lemma_within_push(p, n, to);
        lemma_within_push(p, n, from);
        if within(q, to) {
            if q == to {
                assert(p =~= to.drop_last());
                assert(!within(p, to));
                if within(p, from) {
                    assert(within(to, from));
                }
            } else {
                assert(moved(q, to, from) =~= moved(p, to, from).push(n));
            }
        } else {
            assert(d.contains_key(q));
        }
    }
    assert forall|x: Names| content(e, to).contains_key(x) == content(d, from).contains_key(x) by {
        lemma_joined(to, x);
    }
    assert forall|x: Names| content(e, to).contains_key(x) implies #[trigger] content(e, to)[x]
        == content(d, from)[x] by {
        lemma_joined(to, x);
    }
    assert(content(e, to) =~= content(d, from));
    assert(same_node(d, from, e, to)) by {
        assert(to.take(to.len() as int) =~= to);
        assert(moved(to, to, from) =~= from);
    }
    assert forall|p: Names| within(p, from) implies !#[trigger] e.contains_key(p) by {
        if within(p, to) {
            if from.len() <= to.len() {
                lemma_comparable(p, from, to);
            } else {
                lemma_comparable(p, to, from);
            }
        }
    }
}

/// A clone is a tree.
pub proof fn lemma_clone_tree_like(d: Disk, src: Names, exclude: Seq<Seq<u8>>)
    requires
        rooted(d),
    ensures
        tree_like(clone_of(d, src, exclude)),
        forall|x: Names| #[trigger] clone_of(d, src, exclude).contains_key(x) ==> x.len() > 0,
{
    let t = clone_of(d, src, exclude);
    assert forall|x: Names, n: Seq<u8>| #[trigger] t.contains_key(x.push(n)) && x.len()
        > 0 implies t.contains_key(x) && t[x] is Dir by {
        assert(src + x.push(n) =~= (src + x).push(n));
        assert(d.contains_key((src + x).push(n)));
        if x.len() > 0 {
            assert(x.push(n)[0] == x[0]);
        }
    }
}

/// Two directories whose entries `m` can be moved from one to the other: neither
/// lies in one of those entries of the other.
pub open spec fn clear_of(a: Names, b: Names, m: Seq<Seq<u8>>) -> bool {
    !through(a, b, m) && !through(b, a, m)
}

proof fn lemma_not_both(p: Names, a: Names, b: Names, m: Seq<Seq<u8>>, i: Seq<u8>, j: Seq<u8>)
    requires
        clear_of(a, b, m),
        m.contains(i),
        m.contains(j),
        i != j,
    ensures
        !(within(p, a.push(i)) && within(p, b.push(j))),
{
    if within(p, a.push(i)) && within(p, b.push(j)) {
        lemma_through(p, a, i);
        lemma_through(p, b, j);
        if a.len() <= b.len() {
            lemma_comparable(p, a, b);
            if a.len() == b.len() {
                assert(a =~= b);
            }
        } else {
            lemma_comparable(p, b, a);
        }
    }
}

proof fn lemma_through_entry(p: Names, dir: Names, n: Seq<u8>, m: Seq<Seq<u8>>)
    requires
        m.contains(n),
    ensures
        within(p, dir.push(n)) <==> (p.len() > dir.len() && within(p, dir) && p[dir.len() as int]
            == n),
        within(p, dir.push(n)) ==> through(p, dir, m),
{
    if within(p, dir.push(n)) {
        lemma_through(p, dir, n);
    }
    if p.len() > dir.len() && within(p, dir) && p[dir.len() as int] == n {
        lemma_below(p, dir);
    }
}

/// Disks that hold the same everywhere are the same.
pub proof fn lemma_same_disks(d: Disk, e: Disk)
    requires
        forall|p: Names| #[trigger] same_at(d, e, p),
    ensures
        d == e,
{
    assert forall|p: Names| d.dom().contains(p) == e.dom().contains(p) by {
        assert(same_at(d, e, p));
    }
    assert forall|p: Names| d.dom().contains(p) implies #[trigger] d[p] == e[p] by {
        assert(same_at(d, e, p));
    }
    assert(d =~= e);
}

/// Moving entries one after the other moves them all.
pub proof fn lemma_moves(d: Disk, a: PathView, b: PathView, m: Seq<Seq<u8>>)
    requires
        m.no_duplicates(),
        clear_of(a.parts, b.parts, m),
    ensures
        after_all(d, move_actions(a, b, m)) == shifted(d, a.parts, b.parts, m),
    decreases m.len(),
{
    let (aa, bb) = (a.parts, b.parts);
    let all = move_actions(a, b, m);
    if m.len() == 0 {
        assert(shifted(d, aa, bb, m) =~= d);
    } else {
        let l = m.drop_last();
        let n = m.last();
        assert(all.drop_last() =~= move_actions(a, b, l));
        assert forall|x: Seq<u8>| #[trigger] l.contains(x) implies m.contains(x) && x != n by {
            let i = choose|i: int| 0 <= i < l.len() && l[i] == x;
            assert(m[i] == x);
        }
        assert forall|x: Seq<u8>| #[trigger] m.contains(x) implies l.contains(x) || x == n by {
            let i = choose|i: int| 0 <= i < m.len() && m[i] == x;
            if i < l.len() {
                assert(l[i] == x);
            }
        }
        assert(m.contains(n)) by {
            assert(m[m.len() - 1] == n);
        }
        lemma_moves(d, a, b, l);
        let prev = shifted(d, aa, bb, l);
        let (an, bn) = (aa.push(n), bb.push(n));
        assert(all.last() == ActionView::Rename { from: a.child(n), to: b.child(n) });
        let e = renamed(prev, an, bn);
        let f = shifted(d, aa, bb, m);
        assert forall|p: Names| #[trigger] same_at(e, f, p) by {
            lemma_through_entry(p, bb, n, m);
            lemma_through_entry(p, aa, n, m);
            if within(p, bn) {
                let q = moved(p, bn, an);
                assert(q =~= moved(p, bb, aa)) by {
                    lemma_through(p, bb, n);
                    assert(p.skip(bb.len() as int) =~= seq![n] + p.skip(bn.len() as int));
                }
                lemma_joined(an, p.skip(bn.len() as int));
                lemma_through(q, aa, n);
                assert(!through(q, aa, l));
                if through(q, bb, l) {
                    let j = q[bb.len() as int];
                    lemma_below(q, bb);
                    lemma_not_both(q, aa, bb, m, n, j);
                }
            } else if through(p, bb, m) {
                let j = p[bb.len() as int];
                assert(j != n);
                lemma_below(p, bb);
                lemma_not_both(p, aa, bb, m, n, j);
                assert(through(p, bb, l));
            } else {
                assert(!through(p, bb, l));
            }
        }
        lemma_same_disks(e, f);
    }
}

pub proof fn lemma_shifted_rooted(d: Disk, a: Names, b: Names, m: Seq<Seq<u8>>)
    requires
        rooted(d),
        d.contains_key(b),
        d[b] is Dir,
        clear_of(a, b, m),
    ensures
        rooted(shifted(d, a, b, m)),
{
    let e = shifted(d, a, b, m);
    assert forall|p: Names, n: Seq<u8>| #[trigger] e.contains_key(p.push(n)) implies e.contains_key(
        p,
    ) && e[p] is Dir by {
        let q = p.push(n);
        lemma_within_push(p, n, a);
        lemma_within_push(p, n, b);
        if through(q, b, m) {
            if p.len() == b.len() {
                assert(within(p, b));
                assert(p.take(b.len() as int) =~= p);
                assert(p =~= b);
            } else {
                assert(q.take(b.len() as int) =~= p.take(b.len() as int));
                assert(through(p, b, m));
                assert(moved(q, b, a) =~= moved(p, b, a).push(n));
            }
        } else {
            assert(d.contains_key(q));
            if through(p, b, m) {
                assert(through(q, b, m));
            }
            if through(p, a, m) {
                assert(through(q, a, m));
            }
        }
    }
}

/// What three actions make of a disk.
pub proof fn lemma_three(d: Disk, a: ActionView, b: ActionView, c: ActionView)
    ensures
        after_all(d, seq![a, b, c]) == after(after(after(d, a), b), c),
{
    reveal_with_fuel(after_all, 4);
    assert(seq![a, b, c].drop_last() =~= seq![a, b]);
    assert(seq![a, b].drop_last() =~= seq![a]);
    assert(seq![a].drop_last() =~= Seq::empty());
}

/// What a clone has promised at its start is the clone of the source, at the
/// destination.
pub proof fn clone_promises_the_clone(
    src: PathView,
    dst: PathView,
    exclude: Seq<Seq<u8>>,
    d: Disk,
    p: Names,
    n: Node,
)
    ensures
        ClonerView::start(src, dst, exclude).promised(d, Set::empty()).contains((p, n)) <==> {
            let t = clone_of(d, src.parts, exclude);
            let x = p.skip(dst.parts.len() as int);
            ||| p == dst.parts && n == made_at(d, dst.parts)
            ||| within(p, dst.parts) && t.contains_key(x) && t[x] == n
        },
{
    clone_starts(src, dst, exclude, d);
    let base = dst.parts;
    if within(p, base) {
        lemma_relative(p, base);
        let x = p.skip(base.len() as int);
        if p == base {
            assert(x.len() == 0);
        } else {
            lemma_below(p, base);
            assert(x[0] == p[base.len() as int]);
        }
    }
    assert(within(base, base)) by {
        assert(base.take(base.len() as int) =~= base);
    }
}

/// The disk once all of `written` is put on it.
pub open spec fn put(d: Disk, written: Written) -> Disk {
    Map::new(
        |p: Names| d.contains_key(p) || exists|n: Node| #[trigger] written.contains((p, n)),
        |p: Names|
            if exists|n: Node| #[trigger] written.contains((p, n)) {
                choose|n: Node| #[trigger] written.contains((p, n))
            } else {
                d[p]
            },
    )
}

/// What a clone that is told what is true, until nothing is left to do, has written
/// makes of the disk what the action of cloning does.
pub proof fn finished_clone_is_the_action(
    src: PathView,
    dst: PathView,
    exclude: Seq<Seq<u8>>,
    d: Disk,
    all: Seq<Told>,
)
    requires
        rooted(d),
        all_true(ClonerView::start(src, dst, exclude), d, all),
        in_turn(ClonerView::start(src, dst, exclude), d, all).next() is None,
    ensures
        put(
            made(d, dst.parts),
            all_written(ClonerView::start(src, dst, exclude), d, all),
        ) == after(d, ActionView::Clone { src, dst, exclude }),
{
    let start = ClonerView::start(src, dst, exclude);
    let base = dst.parts;
    let m = made(d, base);
    let w = all_written(start, d, all);
    let t = clone_of(d, src.parts, exclude);
    let end = after(d, ActionView::Clone { src, dst, exclude });
    clone_comes_to_the_source(src, dst, exclude, d, all);
    clone_starts(src, dst, exclude, d);
    assert(within(base, base)) by {
        assert(base.take(base.len() as int) =~= base);
    }
    assert forall|p: Names|
        {
            &&& #[trigger] put(m, w).contains_key(p) == end.contains_key(p)
            &&& end.contains_key(p) ==> put(m, w)[p] == end[p]
        } by {
        let x = p.skip(base.len() as int);
        assert forall|n: Node| #[trigger] w.contains((p, n)) <==> {
            ||| p == base && n == made_at(d, base)
            ||| within(p, base) && t.contains_key(x) && t[x] == n
        } by {
            clone_promises_the_clone(src, dst, exclude, d, p, n);
            assert(w.contains((p, n)) == start.promised(d, Set::empty()).contains((p, n)));
        }
        if p == base {
            assert(x.len() == 0);
            assert(w.contains((p, made_at(d, base))));
            assert(m[p] == made_at(d, base));
        } else if within(p, base) && t.contains_key(x) {
            assert(w.contains((p, t[x])));
        }
    }
    assert(put(m, w) =~= end);
}

} // verus!
