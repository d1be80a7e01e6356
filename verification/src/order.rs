//! The order of paths: by their names, from the first to the last, and of two
//! names by their bytes.

use crate::path::names;
use vstd::prelude::*;

verus! {

/// Whether `a` and `b` agree up to `k`, where `b` goes on and `a` ends or is
/// smaller.
pub open spec fn bytes_part(a: Seq<u8>, b: Seq<u8>, k: int) -> bool {
    &&& 0 <= k <= a.len()
    &&& k < b.len()
    &&& forall|i: int| 0 <= i < k ==> a[i] == b[i]
    &&& k < a.len() ==> a[k] < b[k]
}

/// Whether the name `a` comes before the name `b`.
pub open spec fn name_before(a: Seq<u8>, b: Seq<u8>) -> bool {
    exists|k: int| bytes_part(a, b, k)
}

/// Whether `a` and `b` agree up to `k`, where `b` goes on and `a` ends or comes
/// before it.
pub open spec fn names_part(a: Seq<Seq<u8>>, b: Seq<Seq<u8>>, k: int) -> bool {
    &&& 0 <= k <= a.len()
    &&& k < b.len()
    &&& forall|i: int| 0 <= i < k ==> a[i] == b[i]
    &&& k < a.len() ==> name_before(a[k], b[k])
}

/// Whether the path `a` comes before the path `b`.
pub open spec fn path_before(a: Seq<Seq<u8>>, b: Seq<Seq<u8>>) -> bool {
    exists|k: int| names_part(a, b, k)
}

/// How two things are ordered.
#[derive(Debug, PartialEq, Eq, Structural, Clone, Copy)]
pub enum Order {
    Before,
    Same,
    After,
}

proof fn lemma_name_transitive(a: Seq<u8>, b: Seq<u8>, c: Seq<u8>)
    requires
        name_before(a, b),
        name_before(b, c),
    ensures
        name_before(a, c),
{
    let j = choose|k: int| bytes_part(a, b, k);
    let k = choose|k: int| bytes_part(b, c, k);
    assert(bytes_part(a, c, if j < k { j } else { k }));
}

proof fn lemma_name_irreflexive(a: Seq<u8>)
    ensures
        !name_before(a, a),
{
}

/// A path that comes before another comes before all that the other comes
/// before.
pub proof fn lemma_path_transitive(a: Seq<Seq<u8>>, b: Seq<Seq<u8>>, c: Seq<Seq<u8>>)
    requires
        path_before(a, b),
        path_before(b, c),
    ensures
        path_before(a, c),
{
    let j = choose|k: int| names_part(a, b, k);
    let k = choose|k: int| names_part(b, c, k);
    if j < k {
        assert(names_part(a, c, j));
    } else if k < j {
        assert(names_part(a, c, k));
    } else {
        if j < a.len() {
            lemma_name_transitive(a[j], b[j], c[j]);
        }
        assert(names_part(a, c, j));
    }
}

/// No path comes before itself.
pub proof fn lemma_path_irreflexive(a: Seq<Seq<u8>>)
    ensures
        !path_before(a, a),
{
    if path_before(a, a) {
        let k = choose|k: int| names_part(a, a, k);
        lemma_name_irreflexive(a[k]);
    }
}

/// How two names are ordered.
pub fn order_names(a: &Vec<u8>, b: &Vec<u8>) -> (r: Order)
    ensures
        match r {
            Order::Before => name_before(a@, b@),
            Order::Same => a@ == b@,
            Order::After => name_before(b@, a@),
        },
{
    let mut i: usize = 0;
    while i < a.len() && i < b.len()
        invariant
            i <= a@.len(),
            i <= b@.len(),
            forall|k: int| 0 <= k < i ==> a@[k] == b@[k],
        decreases a@.len() - i,
    {
        if a[i] < b[i] {
            assert(bytes_part(a@, b@, i as int));
            return Order::Before;
        }
        if b[i] < a[i] {
            assert(bytes_part(b@, a@, i as int));
            return Order::After;
        }
        i += 1;
    }
    if i < b.len() {
        assert(bytes_part(a@, b@, i as int));
        Order::Before
    } else if i < a.len() {
        assert(bytes_part(b@, a@, i as int));
        Order::After
    } else {
        assert(a@ =~= b@);
        Order::Same
    }
}

/// How two paths are ordered.
pub fn order_paths(a: &Vec<Vec<u8>>, b: &Vec<Vec<u8>>) -> (r: Order)
    ensures
        match r {
            Order::Before => path_before(names(a@), names(b@)),
            Order::Same => names(a@) == names(b@),
            Order::After => path_before(names(b@), names(a@)),
        },
{
    let ghost x = names(a@);
    let ghost y = names(b@);
    let mut i: usize = 0;
    while i < a.len() && i < b.len()
        invariant
            i <= a@.len(),
            i <= b@.len(),
            x == names(a@),
            y == names(b@),
            forall|k: int| 0 <= k < i ==> x[k] == y[k],
        decreases a@.len() - i,
    {
        match order_names(&a[i], &b[i]) {
            Order::Before => {
                assert(names_part(x, y, i as int));
                return Order::Before;
            },
            Order::After => {
                assert(names_part(y, x, i as int));
                return Order::After;
            },
            Order::Same => {},
        }
        i += 1;
    }
    if i < b.len() {
        assert(names_part(x, y, i as int));
        Order::Before
    } else if i < a.len() {
        assert(names_part(y, x, i as int));
        Order::After
    } else {
        assert(x =~= y);
        Order::Same
    }
}

} // verus!
