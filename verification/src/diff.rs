//! What differs between two trees.

use crate::disk::{EntryKind, Names};
use crate::listing::{are_exactly, changed, exactly_is_each_once, Listing, Meta};
use crate::path::FsPath;
use vstd::prelude::*;

verus! {

/// What differs, going from one tree to another.
#[derive(Debug)]
pub struct DiffResult {
    pub added: Vec<FsPath>,
    pub removed: Vec<FsPath>,
    pub modified: Vec<FsPath>,
}

/// Whether `p` is new in `b`.
pub open spec fn is_added(a: Map<Names, Meta>, b: Map<Names, Meta>, p: Names) -> bool {
    b.contains_key(p) && !a.contains_key(p)
}

/// Whether `p` is in both trees, but changed.
pub open spec fn is_modified(a: Map<Names, Meta>, b: Map<Names, Meta>, p: Names) -> bool {
    b.contains_key(p) && a.contains_key(p) && changed(a[p], b[p])
}

/// Whether `p` is gone from `b`.
pub open spec fn is_removed(a: Map<Names, Meta>, b: Map<Names, Meta>, p: Names) -> bool {
    a.contains_key(p) && !b.contains_key(p)
}

/// What differs between two trees, going from `a` to `b`. Whether an entry has
/// changed is told by its kind, its size and its time.
pub fn diff_trees(a: &Listing, b: &Listing) -> (r: DiffResult)
    ensures
        are_exactly(r.added@, |p: Names| is_added(a@, b@, p)),
        are_exactly(r.modified@, |p: Names| is_modified(a@, b@, p)),
        are_exactly(r.removed@, |p: Names| is_removed(a@, b@, p)),
        forall|p: Names| #[trigger]
            b@.contains_key(p) ==> (has_path(r.added@, p) <==> !a@.contains_key(p)),
        forall|p: Names| #[trigger]
            a@.contains_key(p) ==> (has_path(r.removed@, p) <==> !b@.contains_key(p)),
        forall|p: Names| #[trigger]
            a@.contains_key(p) && b@.contains_key(p) ==> (has_path(r.modified@, p) <==> !(
            a@[p].kind == EntryKind::Dir && b@[p].kind == EntryKind::Dir) && (a@[p].kind
                != b@[p].kind || a@[p].len != b@[p].len || a@[p].mtime_ns != b@[p].mtime_ns)),
        forall|p: Names| #[trigger] has_path(r.added@, p) ==> b@.contains_key(p),
        forall|p: Names| #[trigger] has_path(r.removed@, p) ==> a@.contains_key(p),
        forall|p: Names| #[trigger]
            has_path(r.modified@, p) ==> a@.contains_key(p) && b@.contains_key(p),
{
    assert((|p: Names| is_added(a@, b@, p)) =~= (|p: Names|
        b@.contains_key(p) && !a@.contains_key(p)));
    assert((|p: Names| is_removed(a@, b@, p)) =~= (|p: Names|
        a@.contains_key(p) && !b@.contains_key(p)));
    assert((|p: Names| is_modified(a@, b@, p)) =~= (|p: Names|
        b@.contains_key(p) && a@.contains_key(p) && changed(a@[p], b@[p])));
    let r = DiffResult {
        added: b.missing_from(a),
        removed: a.missing_from(b),
        modified: b.changed_from(a),
    };
    proof {
        lemma_has_path(r.added@, |p: Names| is_added(a@, b@, p));
        lemma_has_path(r.removed@, |p: Names| is_removed(a@, b@, p));
        lemma_has_path(r.modified@, |p: Names| is_modified(a@, b@, p));
    }
    r
}

/// Whether `p` is one of the paths.
pub open spec fn has_path(v: Seq<FsPath>, p: Names) -> bool {
    exists|i: int| 0 <= i < v.len() && (#[trigger] v[i])@.parts == p
}

proof fn lemma_has_path(v: Seq<FsPath>, wanted: spec_fn(Names) -> bool)
    requires
        are_exactly(v, wanted),
    ensures
        forall|p: Names| #[trigger] has_path(v, p) <==> wanted(p),
{
    assert forall|p: Names| #[trigger] has_path(v, p) <==> wanted(p) by {
        exactly_is_each_once(v, wanted, p, 0, 0);
    }
}

/// A path in both trees is reported as modified if and only if it is not a directory in
/// both, and its kind, its size or its time is another.
pub proof fn modified_is_another_kind_size_or_time(
    a: Map<Names, Meta>,
    b: Map<Names, Meta>,
    p: Names,
)
    ensures
        is_modified(a, b, p) <==> {
            &&& a.contains_key(p)
            &&& b.contains_key(p)
            &&& a[p].kind != EntryKind::Dir || b[p].kind != EntryKind::Dir
            &&& a[p].kind != b[p].kind || a[p].len != b[p].len || a[p].mtime_ns != b[p].mtime_ns
        },
        is_added(a, b, p) <==> !a.contains_key(p) && b.contains_key(p),
        is_removed(a, b, p) <==> a.contains_key(p) && !b.contains_key(p),
{
}

impl DiffResult {
    /// Whether nothing differs.
    pub fn is_empty(&self) -> (r: bool)
        ensures
            r == (self.added@.len() == 0 && self.removed@.len() == 0 && self.modified@.len() == 0),
    {
        self.added.len() == 0 && self.removed.len() == 0 && self.modified.len() == 0
    }
}

/// Nothing differs between trees whose entries are of the same kind, size and
/// time.
pub proof fn same_trees_do_not_differ(a: Map<Names, Meta>, b: Map<Names, Meta>, p: Names)
    requires
        a == b,
    ensures
        !is_added(a, b, p),
        !is_modified(a, b, p),
        !is_removed(a, b, p),
{
}

/// Where nothing differs, both trees hold the same paths, and everything but
/// the directories is of the same kind, size and time.
pub proof fn no_difference_means_same(a: Map<Names, Meta>, b: Map<Names, Meta>)
    requires
        forall|p: Names| !#[trigger] is_added(a, b, p),
        forall|p: Names| !#[trigger] is_modified(a, b, p),
        forall|p: Names| !#[trigger] is_removed(a, b, p),
    ensures
        a.dom() == b.dom(),
        forall|p: Names| #[trigger] a.contains_key(p) ==> !changed(a[p], b[p]),
        forall|p: Names| #[trigger]
            a.contains_key(p) ==> a[p].kind == b[p].kind && (a[p].kind != EntryKind::Dir ==> a[p].len
                == b[p].len && a[p].mtime_ns == b[p].mtime_ns && a[p] == b[p]),
{
    assert forall|p: Names| a.contains_key(p) == b.contains_key(p) by {
        assert(!is_added(a, b, p) && !is_removed(a, b, p));
    }
    assert(a.dom() =~= b.dom());
    assert forall|p: Names| #[trigger] a.contains_key(p) implies !changed(a[p], b[p]) by {
        assert(!is_modified(a, b, p));
    }
}

/// Going the other way, what was added is removed, what was removed is added,
/// and what was modified is modified.
pub proof fn difference_reverses(a: Map<Names, Meta>, b: Map<Names, Meta>, p: Names)
    ensures
        is_added(a, b, p) == is_removed(b, a, p),
        is_removed(a, b, p) == is_added(b, a, p),
        is_modified(a, b, p) == is_modified(b, a, p),
{
}

/// A path is reported at most once: as added, as modified or as removed.
pub proof fn difference_is_one_of_three(a: Map<Names, Meta>, b: Map<Names, Meta>, p: Names)
    ensures
        !(is_added(a, b, p) && is_modified(a, b, p)),
        !(is_added(a, b, p) && is_removed(a, b, p)),
        !(is_modified(a, b, p) && is_removed(a, b, p)),
{
}

} // verus!
