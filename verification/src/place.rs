//! Where the parts of a store are, and that they are apart.

use crate::action::content;
use crate::disk::{lemma_through, within, Disk, Names};
use crate::effect::{lemma_joined, same_at};
use crate::number::{
    decimal, decimal_is_injective, decimal_reads_back, is_digit, padded_left,
    zero_padding_is_injective,
};
use crate::store::{store_name, StoreView};
use vstd::prelude::*;
use vstd::utf8::{encode_utf8, encode_utf8_decode_utf8};

verus! {

impl StoreView {
    /// Whether the store is in its workspace.
    pub open spec fn placed(self) -> bool {
        self == StoreView::at(self.root)
    }
}

/// Texts with the same bytes are the same.
pub proof fn lemma_encode_injective(a: Seq<char>, b: Seq<char>)
    requires
        encode_utf8(a) == encode_utf8(b),
    ensures
        a == b,
{
    encode_utf8_decode_utf8(a);
    encode_utf8_decode_utf8(b);
}

/// A path within an entry of a directory is within no other entry.
pub proof fn lemma_entries_apart(p: Names, dir: Names, m: Seq<u8>, n: Seq<u8>)
    requires
        within(p, dir.push(m)),
        within(p, dir.push(n)),
    ensures
        m == n,
{
    lemma_through(p, dir, m);
    lemma_through(p, dir, n);
}

/// The parts of a store are its entries, and no two of them are one.
pub proof fn lemma_parts(store: StoreView)
    requires
        store.placed(),
    ensures
        store.dir.parts == store.root.parts.push(store_name()),
        store.trees_dir().parts == store.dir.parts.push(encode_utf8("trees"@)),
        store.tmp_dir().parts == store.dir.parts.push(encode_utf8("tmp"@)),
        store.trash_dir().parts == store.dir.parts.push(encode_utf8("trash"@)),
        encode_utf8("trees"@) != encode_utf8("tmp"@),
        encode_utf8("trees"@) != encode_utf8("trash"@),
        encode_utf8("tmp"@) != encode_utf8("trash"@),
{
    reveal_strlit("trees");
    reveal_strlit("tmp");
    reveal_strlit("trash");
    let (a, b, c) = ("trees"@, "tmp"@, "trash"@);
    assert(a.len() == 5 && b.len() == 3 && c.len() == 5);
    assert(a[2] == 'e' && c[2] == 'a');
    if encode_utf8(a) == encode_utf8(b) {
        lemma_encode_injective(a, b);
    }
    if encode_utf8(a) == encode_utf8(c) {
        lemma_encode_injective(a, c);
    }
    if encode_utf8(b) == encode_utf8(c) {
        lemma_encode_injective(b, c);
    }
}

/// A path within an entry of a directory of the store is in that directory, in
/// no other directory of the store, and in the store.
pub proof fn lemma_in_part(store: StoreView, p: Names, part: Seq<u8>, name: Seq<u8>)
    requires
        store.placed(),
        within(p, store.dir.parts.push(part).push(name)),
    ensures
        within(p, store.dir.parts.push(part)),
        within(p, store.dir.parts),
        p != store.dir.parts,
        p != store.dir.parts.push(part),
        within(p, store.root.parts),
        p.len() > store.root.parts.len() + 2,
        p[store.root.parts.len() as int] == store_name(),
        p[store.root.parts.len() as int + 1] == part,
        p[store.root.parts.len() as int + 2] == name,
{
    let r = store.root.parts;
    let s = store.dir.parts;
    assert(s == r.push(store_name()));
    lemma_through(p, s.push(part), name);
    lemma_through(p, s, part);
    lemma_through(p, r, store_name());
}

/// The trees of two checkpoints are apart.
pub proof fn trees_are_apart(store: StoreView, i: u64, j: u64, p: Names)
    requires
        within(p, store.tree(i).parts),
        within(p, store.tree(j).parts),
    ensures
        i == j,
{
    let (a, b) = (padded_left(decimal(i as nat), 6, '0'), padded_left(decimal(j as nat), 6, '0'));
    lemma_entries_apart(p, store.trees_dir().parts, encode_utf8(a), encode_utf8(b));
    lemma_encode_injective(a, b);
    zero_padding_is_injective(i as nat, j as nat, 6);
}

/// What restores before two checkpoints displace is apart.
pub proof fn trash_is_apart(store: StoreView, now: u64, i: u64, later: u64, j: u64, p: Names)
    requires
        within(p, store.trash(now, i).parts),
        within(p, store.trash(later, j).parts),
    ensures
        i == j,
{
    let (m, n) = (decimal(now as nat), decimal(later as nat));
    let (x, y) = (decimal(i as nat), decimal(j as nat));
    let a = m + "-pre"@ + x;
    let b = n + "-pre"@ + y;
    lemma_entries_apart(p, store.trash_dir().parts, encode_utf8(a), encode_utf8(b));
    lemma_encode_injective(a, b);
    decimal_reads_back(now);
    decimal_reads_back(later);
    reveal_strlit("-pre");
    assert(a[m.len() as int] == '-');
    assert(b[n.len() as int] == '-');
    if m.len() < n.len() {
        assert(b[m.len() as int] == n[m.len() as int]);
        assert(is_digit(n[m.len() as int]));
    }
    if n.len() < m.len() {
        assert(a[n.len() as int] == m[n.len() as int]);
        assert(is_digit(m[n.len() as int]));
    }
    assert(a.skip(m.len() as int + 4) =~= x);
    assert(b.skip(n.len() as int + 4) =~= y);
    decimal_is_injective(i as nat, j as nat);
}

/// Disks that hold the same within a directory have the same content there.
pub proof fn lemma_same_content(d: Disk, e: Disk, base: Names)
    requires
        forall|p: Names| within(p, base) ==> #[trigger] same_at(d, e, p),
    ensures
        content(d, base) == content(e, base),
{
    assert forall|x: Names| content(d, base).contains_key(x) == content(e, base).contains_key(x) by {
        lemma_joined(base, x);
        assert(same_at(d, e, base + x));
    }
    assert forall|x: Names| content(d, base).contains_key(x) implies #[trigger] content(d, base)[x]
        == content(e, base)[x] by {
        lemma_joined(base, x);
        assert(same_at(d, e, base + x));
    }
    assert(content(d, base) =~= content(e, base));
}

} // verus!
