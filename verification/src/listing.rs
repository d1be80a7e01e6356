//! What a walk through a tree records, in the order of the paths.

use crate::disk::{EntryKind, Names};
use crate::order::{lemma_path_irreflexive, lemma_path_transitive, order_paths, path_before, Order};
use crate::path::{copy_names, names, FsPath};
use vstd::prelude::*;

verus! {

/// What tells whether an entry has changed.
#[derive(Debug, PartialEq, Eq, Structural, Clone, Copy)]
pub struct Meta {
    pub kind: EntryKind,
    pub len: u64,
    /// Nanoseconds since the Unix epoch; -1 where there is no such time.
    pub mtime_ns: i128,
}

/// An entry of a tree, by the names along its path in the tree.
#[derive(Debug)]
pub struct Entry {
    pub path: Vec<Vec<u8>>,
    pub meta: Meta,
}

#[verifier::ext_equal]
pub struct EntryView {
    pub path: Names,
    pub meta: Meta,
}

impl View for Entry {
    type V = EntryView;

    open spec fn view(&self) -> EntryView {
        EntryView { path: names(self.path@), meta: self.meta }
    }
}

/// The views of a list of entries.
pub open spec fn entries(v: Seq<Entry>) -> Seq<EntryView> {
    v.map_values(|e: Entry| e@)
}

/// What is recorded of each path; where a path comes twice, the last time
/// counts.
pub open spec fn recorded(v: Seq<EntryView>) -> Map<Names, Meta>
    decreases v.len(),
{
    if v.len() == 0 {
        Map::empty()
    } else {
        recorded(v.drop_last()).insert(v.last().path, v.last().meta)
    }
}

/// Whether each path comes before the next.
pub open spec fn in_order(v: Seq<EntryView>) -> bool {
    forall|i: int, j: int| 0 <= i < j < v.len() ==> path_before(#[trigger] v[i].path, #[trigger] v[j].path)
}

/// What a walk recorded, in the order of the paths.
#[derive(Debug)]
pub struct Listing {
    entries: Vec<Entry>,
}

impl View for Listing {
    type V = Map<Names, Meta>;

    closed spec fn view(&self) -> Map<Names, Meta> {
        recorded(entries(self.entries@))
    }
}

proof fn lemma_recorded(v: Seq<EntryView>, i: int)
    requires
        0 <= i < v.len(),
        forall|k: int| i < k < v.len() ==> (#[trigger] v[k]).path != v[i].path,
    ensures
        recorded(v).contains_key(v[i].path),
        recorded(v)[v[i].path] == v[i].meta,
    decreases v.len(),
{
    if i < v.len() - 1 {
        let w = v.drop_last();
        assert forall|k: int| i < k < w.len() implies (#[trigger] w[k]).path != w[i].path by {
            assert(v[k].path != v[i].path);
        }
        assert(v[v.len() - 1].path != v[i].path);
        lemma_recorded(w, i);
    }
}

proof fn lemma_recorded_from(v: Seq<EntryView>, p: Names) -> (i: int)
    requires
        recorded(v).contains_key(p),
    ensures
        0 <= i < v.len(),
        v[i].path == p,
        v[i].meta == recorded(v)[p],
        forall|k: int| i < k < v.len() ==> (#[trigger] v[k]).path != p,
    decreases v.len(),
{
    if v.last().path == p {
        v.len() - 1
    } else {
        let i = lemma_recorded_from(v.drop_last(), p);
        assert forall|k: int| i < k < v.len() implies (#[trigger] v[k]).path != p by {
            if k < v.len() - 1 {
                assert(v.drop_last()[k] == v[k]);
            }
        }
        i
    }
}

/// Whether the entry at `i` comes before the one at `j`: by its path, and where
/// the paths are the same, by its place.
spec fn place_before(v: Seq<EntryView>, i: int, j: int) -> bool {
    path_before(v[i].path, v[j].path) || (v[i].path == v[j].path && i < j)
}

proof fn lemma_place_transitive(v: Seq<EntryView>, i: int, j: int, k: int)
    requires
        place_before(v, i, j),
        place_before(v, j, k),
    ensures
        place_before(v, i, k),
{
    if path_before(v[i].path, v[j].path) && path_before(v[j].path, v[k].path) {
        lemma_path_transitive(v[i].path, v[j].path, v[k].path);
    }
}

/// Whether `order` holds each place from `lo` to `hi` once, in order.
spec fn is_order(v: Seq<EntryView>, order: Seq<usize>, lo: int, hi: int) -> bool {
    &&& forall|i: int, j: int|
        0 <= i < j < order.len() ==> place_before(v, #[trigger] order[i] as int, #[trigger] order[j] as int)
    &&& forall|x: usize| #[trigger] order.contains(x) <==> lo <= x < hi
}

fn goes_first(v: &Vec<Entry>, i: usize, j: usize) -> (r: bool)
    requires
        i < v@.len(),
        j < v@.len(),
        i != j,
    ensures
        r == place_before(entries(v@), i as int, j as int),
        r == !place_before(entries(v@), j as int, i as int),
{
    let ghost w = entries(v@);
    proof {
        lemma_path_irreflexive(w[i as int].path);
        lemma_path_irreflexive(w[j as int].path);
        if path_before(w[i as int].path, w[j as int].path) && path_before(
            w[j as int].path,
            w[i as int].path,
        ) {
            lemma_path_transitive(w[i as int].path, w[j as int].path, w[i as int].path);
        }
    }
    match order_paths(&v[i].path, &v[j].path) {
        Order::Before => true,
        Order::After => false,
        Order::Same => i < j,
    }
}

/// The places in `a` and `b`, in order.
fn merge(v: &Vec<Entry>, a: &Vec<usize>, b: &Vec<usize>, lo: usize, mid: usize, hi: usize) -> (r: Vec<usize>)
    requires
        lo <= mid <= hi <= v@.len(),
        is_order(entries(v@), a@, lo as int, mid as int),
        is_order(entries(v@), b@, mid as int, hi as int),
    ensures
        is_order(entries(v@), r@, lo as int, hi as int),
{
    let ghost w = entries(v@);
    let mut r: Vec<usize> = Vec::new();
    let mut i: usize = 0;
    let mut j: usize = 0;
    while i < a.len() || j < b.len()
        invariant
            lo <= mid <= hi <= v@.len(),
            w == entries(v@),
            is_order(w, a@, lo as int, mid as int),
            is_order(w, b@, mid as int, hi as int),
            i <= a@.len(),
            j <= b@.len(),
            forall|x: int, y: int|
                0 <= x < y < r@.len() ==> place_before(w, #[trigger] r@[x] as int, #[trigger] r@[y] as int),
            forall|x: int, y: int|
                0 <= x < r@.len() && i <= y < a@.len() ==> place_before(w, #[trigger] r@[x] as int, #[trigger] a@[y] as int),
            forall|x: int, y: int|
                0 <= x < r@.len() && j <= y < b@.len() ==> place_before(w, #[trigger] r@[x] as int, #[trigger] b@[y] as int),
            forall|x: usize| #[trigger]
                r@.contains(x) <==> a@.take(i as int).contains(x) || b@.take(j as int).contains(x),
        decreases a@.len() - i + b@.len() - j,
    {
        let ghost before = r@;
        if i < a.len() {
            assert(a@.contains(a@[i as int]));
        }
        if j < b.len() {
            assert(b@.contains(b@[j as int]));
        }
        let take_a: bool = j == b.len() || (i < a.len() && goes_first(v, a[i], b[j]));
        if take_a {
            let x: usize = a[i];
            r.push(x);
            proof {
                lemma_taken(a@, i as int);
                lemma_pushed(before, x);
                assert forall|y: int| j <= y < b@.len() implies place_before(
                    w,
                    x as int,
                    #[trigger] b@[y] as int,
                ) by {
                    if y > j {
                        lemma_place_transitive(w, x as int, b@[j as int] as int, b@[y] as int);
                    }
                }
            }
            i += 1;
        } else {
            let x: usize = b[j];
            r.push(x);
            proof {
                lemma_taken(b@, j as int);
                lemma_pushed(before, x);
                assert forall|y: int| i <= y < a@.len() implies place_before(
                    w,
                    x as int,
                    #[trigger] a@[y] as int,
                ) by {
                    if y > i {
                        lemma_place_transitive(w, x as int, a@[i as int] as int, a@[y] as int);
                    }
                }
            }
            j += 1;
        }
    }
    assert(a@.take(i as int) =~= a@);
    assert(b@.take(j as int) =~= b@);
    r
}

proof fn lemma_taken(s: Seq<usize>, i: int)
    requires
        0 <= i < s.len(),
    ensures
        forall|x: usize| #[trigger]
            s.take(i + 1).contains(x) <==> s.take(i).contains(x) || x == s[i],
{
    assert(s.take(i + 1) =~= s.take(i).push(s[i]));
    lemma_pushed(s.take(i), s[i]);
}

proof fn lemma_pushed(s: Seq<usize>, y: usize)
    ensures
        forall|x: usize| #[trigger] s.push(y).contains(x) <==> s.contains(x) || x == y,
{
    assert forall|x: usize| #[trigger] s.push(y).contains(x) <==> s.contains(x) || x == y by {
        if s.contains(x) {
            let k = choose|k: int| 0 <= k < s.len() && s[k] == x;
            assert(s.push(y)[k] == x);
        }
        if x == y {
            assert(s.push(y)[s.len() as int] == x);
        }
    }
}

/// The places from `lo` to `hi`, in order.
fn sorted_places(v: &Vec<Entry>, lo: usize, hi: usize) -> (r: Vec<usize>)
    requires
        lo <= hi <= v@.len(),
    ensures
        is_order(entries(v@), r@, lo as int, hi as int),
    decreases hi - lo,
{
    let n: usize = hi - lo;
    let mut r: Vec<usize> = Vec::new();
    if n == 0 {
        r
    } else if n == 1 {
        r.push(lo);
        assert(r@[0] == lo);
        r
    } else {
        let mid: usize = lo + n / 2;
        let a = sorted_places(v, lo, mid);
        let b = sorted_places(v, mid, hi);
        merge(v, &a, &b, lo, mid, hi)
    }
}

/// Whether the place at `k` is the last one with its path.
spec fn ends_run(v: Seq<EntryView>, order: Seq<usize>, k: int) -> bool {
    &&& 0 <= k < order.len()
    &&& k + 1 < order.len() ==> v[order[k] as int].path != v[order[k + 1] as int].path
}

proof fn lemma_run_ends(v: Seq<EntryView>, order: Seq<usize>, k: int, m: int)
    requires
        is_order(v, order, 0, v.len() as int),
        ends_run(v, order, k),
        k < m < order.len(),
    ensures
        path_before(v[order[k] as int].path, v[order[m] as int].path),
{
    assert(place_before(v, order[k] as int, order[k + 1] as int));
    if k + 1 < m {
        assert(place_before(v, order[k + 1] as int, order[m] as int));
        if path_before(v[order[k + 1] as int].path, v[order[m] as int].path) {
            lemma_path_transitive(
                v[order[k] as int].path,
                v[order[k + 1] as int].path,
                v[order[m] as int].path,
            );
        }
    }
}

/// What is picked from `v`, the last of each run, records the same.
proof fn lemma_picked(v: Seq<EntryView>, order: Seq<usize>, out: Seq<EntryView>, from: Seq<int>)
    requires
        v.len() <= usize::MAX,
        is_order(v, order, 0, v.len() as int),
        from.len() == out.len(),
        forall|m: int| 0 <= m < out.len() ==> ends_run(v, order, #[trigger] from[m]),
        forall|m: int| 0 <= m < out.len() ==> #[trigger] out[m] == v[order[from[m]] as int],
        forall|a: int, b: int| 0 <= a < b < from.len() ==> from[a] < from[b],
        forall|k: int| #[trigger] ends_run(v, order, k) ==> from.contains(k),
    ensures
        in_order(out),
        recorded(out) == recorded(v),
{
    assert forall|a: int, b: int| 0 <= a < b < out.len() implies path_before(
        #[trigger] out[a].path,
        #[trigger] out[b].path,
    ) by {
        lemma_run_ends(v, order, from[a], from[b]);
    }
    assert forall|p: Names| recorded(v).contains_key(p) implies #[trigger] recorded(out).contains_key(
        p,
    ) && recorded(out)[p] == recorded(v)[p] by {
        let i = lemma_recorded_from(v, p);
        assert(order.contains(i as usize));
        let k = choose|k: int| 0 <= k < order.len() && order[k] == i as usize;
        if k + 1 < order.len() && v[order[k + 1] as int].path == p {
            lemma_path_irreflexive(p);
            assert(place_before(v, order[k] as int, order[k + 1] as int));
            assert(order.contains(order[k + 1]));
        }
        assert(ends_run(v, order, k));
        let m = choose|m: int| 0 <= m < from.len() && from[m] == k;
        assert(out[m] == v[i]);
        lemma_in_order_once(out, m);
        lemma_recorded(out, m);
    }
    assert forall|p: Names| #[trigger] recorded(out).contains_key(p) implies recorded(
        v,
    ).contains_key(p) by {
        let m = lemma_recorded_from(out, p);
        assert(ends_run(v, order, from[m]));
        assert(order.contains(order[from[m]]));
        lemma_recorded_some(v, order[from[m]] as int);
    }
    assert(recorded(out) =~= recorded(v));
}

proof fn lemma_recorded_some(v: Seq<EntryView>, i: int)
    requires
        0 <= i < v.len(),
    ensures
        recorded(v).contains_key(v[i].path),
    decreases v.len(),
{
    if i < v.len() - 1 {
        lemma_recorded_some(v.drop_last(), i);
    }
}

proof fn lemma_in_order_once(v: Seq<EntryView>, m: int)
    requires
        in_order(v),
        0 <= m < v.len(),
    ensures
        forall|k: int| 0 <= k < v.len() && k != m ==> (#[trigger] v[k]).path != v[m].path,
{
    lemma_path_irreflexive(v[m].path);
    assert forall|k: int| 0 <= k < v.len() && k != m implies (#[trigger] v[k]).path != v[m].path by {
        if k < m {
            assert(path_before(v[k].path, v[m].path));
        } else {
            assert(path_before(v[m].path, v[k].path));
        }
    }
}

impl Listing {
    #[verifier::type_invariant]
    spec fn ordered(self) -> bool {
        in_order(entries(self.entries@))
    }

    /// The listing of what was recorded.
    pub fn new(all: &Vec<Entry>) -> (r: Listing)
        ensures
            r@ == recorded(entries(all@)),
    {
        let ghost v = entries(all@);
        let n: usize = all.len();
        let order = sorted_places(all, 0, n);
        let mut out: Vec<Entry> = Vec::new();
        let ghost mut from: Seq<int> = Seq::empty();
        let mut k: usize = 0;
        while k < order.len()
            invariant
                k <= order@.len(),
                v == entries(all@),
                n == all@.len(),
                is_order(v, order@, 0, v.len() as int),
                from.len() == out@.len(),
                forall|m: int| 0 <= m < out@.len() ==> ends_run(v, order@, #[trigger] from[m]) && from[m] < k,
                forall|m: int|
                    0 <= m < out@.len() ==> #[trigger] entries(out@)[m] == v[order@[from[m]] as int],
                forall|a: int, b: int| 0 <= a < b < from.len() ==> from[a] < from[b],
                forall|j: int| j < k && #[trigger] ends_run(v, order@, j) ==> from.contains(j),
            decreases order@.len() - k,
        {
            assert(order@.contains(order@[k as int]));
            let i: usize = order[k];
            let mut last: bool = true;
            if k + 1 < order.len() {
                assert(order@.contains(order@[k + 1]));
                match order_paths(&all[i].path, &all[order[k + 1]].path) {
                    Order::Same => {
                        last = false;
                    },
                    _ => {
                        proof {
                            lemma_path_irreflexive(v[i as int].path);
                        }
                    },
                }
            }
            assert(last == ends_run(v, order@, k as int));
            if last {
                let ghost before = from;
                let ghost earlier = entries(out@);
                let e = Entry { path: copy_names(&all[i].path), meta: all[i].meta };
                out.push(e);
                proof {
                    from = from.push(k as int);
                    assert(entries(out@) =~= earlier.push(e@));
                    assert(e@ =~= v[i as int]);
                    assert(from[before.len() as int] == k);
                    assert forall|j: int| before.contains(j) implies #[trigger] from.contains(j) by {
                        let m = choose|m: int| 0 <= m < before.len() && before[m] == j;
                        assert(from[m] == j);
                    }
                    assert(from.contains(k as int));
                    assert forall|m: int| 0 <= m < out@.len() implies #[trigger] entries(out@)[m]
                        == v[order@[from[m]] as int] by {
                        if m < before.len() {
                            assert(entries(out@)[m] == earlier[m]);
                        }
                    }
                }
            }
            k += 1;
        }
        proof {
            lemma_picked(v, order@, entries(out@), from);
        }
        Listing { entries: out }
    }

    /// What is recorded of the path with these names.
    pub fn find(&self, path: &Vec<Vec<u8>>) -> (r: Option<Meta>)
        ensures
            match r {
                Some(m) => self@.contains_key(names(path@)) && self@[names(path@)] == m,
                None => !self@.contains_key(names(path@)),
            },
    {
        proof {
            use_type_invariant(self);
        }
        let ghost v = entries(self.entries@);
        let ghost p = names(path@);
        let mut lo: usize = 0;
        let mut hi: usize = self.entries.len();
        while lo < hi
            invariant
                lo <= hi <= self.entries@.len(),
                v == entries(self.entries@),
                p == names(path@),
                in_order(v),
                forall|k: int| 0 <= k < lo ==> path_before((#[trigger] v[k]).path, p),
                forall|k: int| hi <= k < v.len() ==> path_before(p, (#[trigger] v[k]).path),
            decreases hi - lo,
        {
            let mid: usize = lo + (hi - lo) / 2;
            match order_paths(&self.entries[mid].path, path) {
                Order::Same => {
                    proof {
                        lemma_in_order_once(v, mid as int);
                        lemma_recorded(v, mid as int);
                    }
                    return Some(self.entries[mid].meta);
                },
                Order::Before => {
                    assert forall|k: int| 0 <= k < mid + 1 implies path_before(
                        (#[trigger] v[k]).path,
                        p,
                    ) by {
                        if k < mid {
                            assert(path_before(v[k].path, v[mid as int].path));
                            lemma_path_transitive(v[k].path, v[mid as int].path, p);
                        }
                    }
                    lo = mid + 1;
                },
                Order::After => {
                    assert forall|k: int| mid <= k < v.len() implies path_before(
                        p,
                        (#[trigger] v[k]).path,
                    ) by {
                        if mid < k {
                            assert(path_before(v[mid as int].path, v[k].path));
                            lemma_path_transitive(p, v[mid as int].path, v[k].path);
                        }
                    }
                    hi = mid;
                },
            }
        }
        proof {
            if recorded(v).contains_key(p) {
                let i = lemma_recorded_from(v, p);
                lemma_path_irreflexive(p);
            }
        }
        None
    }

    /// The paths that are recorded here and not in `other`, in order.
    pub fn missing_from(&self, other: &Listing) -> (r: Vec<FsPath>)
        ensures
            are_exactly(
                r@,
                |p: Names| self@.contains_key(p) && !other@.contains_key(p),
            ),
    {
        proof {
            use_type_invariant(self);
        }
        let ghost v = entries(self.entries@);
        let ghost wanted = |p: Names| self@.contains_key(p) && !other@.contains_key(p);
        let mut r: Vec<FsPath> = Vec::new();
        let mut i: usize = 0;
        let ghost mut from: Seq<int> = Seq::empty();
        while i < self.entries.len()
            invariant
                i <= self.entries@.len(),
                v == entries(self.entries@),
                self.ordered(),
                wanted == (|p: Names| self@.contains_key(p) && !other@.contains_key(p)),
                selects(v.take(i as int), wanted, r@, from),
            decreases self.entries@.len() - i,
        {
            let e = &self.entries[i];
            proof {
                lemma_recorded_some(v, i as int);
            }
            let keep: bool = other.find(&e.path).is_none();
            assert(keep == wanted(v[i as int].path));
            if keep {
                let p = FsPath { absolute: false, parts: copy_names(&e.path) };
                let ghost before = r@;
                r.push(p);
                proof {
                    lemma_selected(v, i as int, wanted, before, from, p);
                    from = from.push(i as int);
                }
            } else {
                proof {
                    lemma_not_selected(v, i as int, wanted, r@, from);
                }
            }
            i += 1;
        }
        proof {
            assert(v.take(i as int) =~= v);
            lemma_selection(v, wanted, r@, from);
        }
        r
    }

    /// The paths that are recorded here and in `other`, but changed, in order.
    pub fn changed_from(&self, other: &Listing) -> (r: Vec<FsPath>)
        ensures
            are_exactly(
                r@,
                |p: Names|
                    self@.contains_key(p) && other@.contains_key(p) && changed(other@[p], self@[p]),
            ),
    {
        proof {
            use_type_invariant(self);
        }
        let ghost v = entries(self.entries@);
        let ghost wanted = |p: Names|
            self@.contains_key(p) && other@.contains_key(p) && changed(other@[p], self@[p]);
        let mut r: Vec<FsPath> = Vec::new();
        let mut i: usize = 0;
        let ghost mut from: Seq<int> = Seq::empty();
        while i < self.entries.len()
            invariant
                i <= self.entries@.len(),
                v == entries(self.entries@),
                self.ordered(),
                wanted == (|p: Names|
                    self@.contains_key(p) && other@.contains_key(p) && changed(other@[p], self@[p])),
                selects(v.take(i as int), wanted, r@, from),
            decreases self.entries@.len() - i,
        {
            let e = &self.entries[i];
            proof {
                lemma_in_order_once(v, i as int);
                lemma_recorded(v, i as int);
            }
            let keep: bool = match other.find(&e.path) {
                Some(m) => has_changed(&m, &e.meta),
                None => false,
            };
            assert(keep == wanted(v[i as int].path));
            if keep {
                let p = FsPath { absolute: false, parts: copy_names(&e.path) };
                let ghost before = r@;
                r.push(p);
                proof {
                    lemma_selected(v, i as int, wanted, before, from, p);
                    from = from.push(i as int);
                }
            } else {
                proof {
                    lemma_not_selected(v, i as int, wanted, r@, from);
                }
            }
            i += 1;
        }
        proof {
            assert(v.take(i as int) =~= v);
            lemma_selection(v, wanted, r@, from);
        }
        r
    }
}

/// Whether an entry has changed: two directories never have, and of anything
/// else the kind, the size or the time differs.
pub open spec fn changed(was: Meta, is: Meta) -> bool {
    !(was.kind == EntryKind::Dir && is.kind == EntryKind::Dir) && was != is
}

fn has_changed(was: &Meta, is: &Meta) -> (r: bool)
    ensures
        r == changed(*was, *is),
        r <==> !(was.kind == EntryKind::Dir && is.kind == EntryKind::Dir) && (was.kind != is.kind
            || was.len != is.len || was.mtime_ns != is.mtime_ns),
{
    if was.kind == EntryKind::Dir && is.kind == EntryKind::Dir {
        return false;
    }
    was.kind != is.kind || was.len != is.len || was.mtime_ns != is.mtime_ns
}

/// Whether `r` holds the paths, in a tree, for which `wanted` holds: each of
/// them once, in order.
pub open spec fn are_exactly(r: Seq<FsPath>, wanted: spec_fn(Names) -> bool) -> bool {
    &&& forall|i: int| 0 <= i < r.len() ==> !(#[trigger] r[i])@.absolute && wanted(r[i]@.parts)
    &&& forall|i: int, j: int|
        0 <= i < j < r.len() ==> path_before(#[trigger] r[i]@.parts, #[trigger] r[j]@.parts)
    &&& forall|p: Names| #[trigger]
        wanted(p) ==> exists|i: int| 0 <= i < r.len() && (#[trigger] r[i])@.parts == p
}

/// Anything that is not a directory before and after has changed where its kind, its
/// size or its time is another; a directory that stays one has not.
pub proof fn change_shows_in_kind_size_or_time(was: Meta, is: Meta)
    ensures
        was.kind == EntryKind::Dir && is.kind == EntryKind::Dir ==> !changed(was, is),
        was.kind != is.kind ==> changed(was, is),
        was.kind != EntryKind::Dir && was.len != is.len ==> changed(was, is),
        was.kind != EntryKind::Dir && was.mtime_ns != is.mtime_ns ==> changed(was, is),
        is.kind != EntryKind::Dir && was.len != is.len ==> changed(was, is),
        is.kind != EntryKind::Dir && was.mtime_ns != is.mtime_ns ==> changed(was, is),
        changed(was, is) ==> was.kind != is.kind || was.len != is.len || was.mtime_ns
            != is.mtime_ns,
{
}

/// Paths that are exactly those that are wanted hold each of them once, in order, and
/// no other; all are paths in a tree.
pub proof fn exactly_is_each_once(
    r: Seq<FsPath>,
    wanted: spec_fn(Names) -> bool,
    p: Names,
    i: int,
    j: int,
)
    requires
        are_exactly(r, wanted),
    ensures
        wanted(p) <==> exists|k: int| 0 <= k < r.len() && (#[trigger] r[k])@.parts == p,
        0 <= i < j < r.len() ==> r[i]@.parts != r[j]@.parts && path_before(
            r[i]@.parts,
            r[j]@.parts,
        ),
        0 <= i < r.len() ==> !r[i]@.absolute,
{
    if 0 <= i < j < r.len() {
        lemma_path_irreflexive(r[i]@.parts);
    }
}

/// What is recorded of a path is what was found of it last; nothing else is recorded.
pub proof fn what_was_found_last_is_recorded(v: Seq<EntryView>, e: EntryView, p: Names)
    ensures
        recorded(Seq::<EntryView>::empty()) == Map::<Names, Meta>::empty(),
        recorded(v.push(e)).contains_key(p) <==> recorded(v).contains_key(p) || p == e.path,
        recorded(v.push(e)).contains_key(p) ==> recorded(v.push(e))[p] == if p == e.path {
            e.meta
        } else {
            recorded(v)[p]
        },
{
    assert(v.push(e).drop_last() =~= v);
}

/// Whether `r` holds the paths of `v` for which `wanted` holds, and `from` their
/// places.
spec fn selects(v: Seq<EntryView>, wanted: spec_fn(Names) -> bool, r: Seq<FsPath>, from: Seq<int>) -> bool {
    &&& from.len() == r.len()
    &&& forall|m: int|
        0 <= m < r.len() ==> {
            &&& 0 <= #[trigger] from[m] < v.len()
            &&& !r[m]@.absolute
            &&& r[m]@.parts == v[from[m]].path
            &&& wanted(v[from[m]].path)
        }
    &&& forall|a: int, b: int| 0 <= a < b < from.len() ==> from[a] < from[b]
    &&& forall|k: int| 0 <= k < v.len() && wanted((#[trigger] v[k]).path) ==> from.contains(k)
}

proof fn lemma_selected(
    v: Seq<EntryView>,
    i: int,
    wanted: spec_fn(Names) -> bool,
    r: Seq<FsPath>,
    from: Seq<int>,
    p: FsPath,
)
    requires
        0 <= i < v.len(),
        selects(v.take(i), wanted, r, from),
        wanted(v[i].path),
        !p@.absolute,
        p@.parts == v[i].path,
    ensures
        selects(v.take(i + 1), wanted, r.push(p), from.push(i)),
{
    let w = v.take(i + 1);
    let g = from.push(i);
    assert forall|m: int| 0 <= m < r.push(p).len() implies {
        &&& 0 <= #[trigger] g[m] < w.len()
        &&& !r.push(p)[m]@.absolute
        &&& r.push(p)[m]@.parts == w[g[m]].path
        &&& wanted(w[g[m]].path)
    } by {
        if m < r.len() {
            assert(g[m] == from[m]);
            assert(v.take(i)[from[m]] == w[from[m]]);
        }
    }
    assert forall|k: int| 0 <= k < w.len() && wanted((#[trigger] w[k]).path) implies g.contains(k) by {
        if k < i {
            assert(v.take(i)[k] == w[k]);
            let m = choose|m: int| 0 <= m < from.len() && from[m] == k;
            assert(g[m] == k);
        } else {
            assert(g[from.len() as int] == k);
        }
    }
}

proof fn lemma_not_selected(
    v: Seq<EntryView>,
    i: int,
    wanted: spec_fn(Names) -> bool,
    r: Seq<FsPath>,
    from: Seq<int>,
)
    requires
        0 <= i < v.len(),
        selects(v.take(i), wanted, r, from),
        !wanted(v[i].path),
    ensures
        selects(v.take(i + 1), wanted, r, from),
{
    let w = v.take(i + 1);
    assert forall|m: int| 0 <= m < r.len() implies {
        &&& 0 <= #[trigger] from[m] < w.len()
        &&& !r[m]@.absolute
        &&& r[m]@.parts == w[from[m]].path
        &&& wanted(w[from[m]].path)
    } by {
        assert(v.take(i)[from[m]] == w[from[m]]);
    }
    assert forall|k: int| 0 <= k < w.len() && wanted((#[trigger] w[k]).path) implies from.contains(
        k,
    ) by {
        assert(k < i);
        assert(v.take(i)[k] == w[k]);
    }
}

proof fn lemma_selection(
    v: Seq<EntryView>,
    wanted: spec_fn(Names) -> bool,
    r: Seq<FsPath>,
    from: Seq<int>,
)
    requires
        in_order(v),
        selects(v, wanted, r, from),
        forall|p: Names| #[trigger] wanted(p) ==> recorded(v).contains_key(p),
    ensures
        are_exactly(r, wanted),
{
    assert forall|i: int| 0 <= i < r.len() implies !(#[trigger] r[i])@.absolute && wanted(
        r[i]@.parts,
    ) by {
        assert(0 <= from[i] < v.len());
    }
    assert forall|i: int, j: int| 0 <= i < j < r.len() implies path_before(
        #[trigger] r[i]@.parts,
        #[trigger] r[j]@.parts,
    ) by {
        assert(from[i] < from[j]);
        assert(path_before(v[from[i]].path, v[from[j]].path));
    }
    assert forall|p: Names| #[trigger] wanted(p) implies exists|i: int|
        0 <= i < r.len() && (#[trigger] r[i])@.parts == p by {
        let k = lemma_recorded_from(v, p);
        assert(wanted(v[k].path));
        let m = choose|m: int| 0 <= m < from.len() && from[m] == k;
        assert(r[m]@.parts == p);
    }
}

} // verus!
