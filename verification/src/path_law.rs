//! How paths are made up and ordered, and where the parts of a store are.

use crate::disk::{kind_of, EntryKind};
use crate::number::{
    all_digits, decimal, digits_value, is_digit, lemma_decimal_digits, lemma_leading_zeros,
    padded_left,
};
use crate::order::{bytes_part, name_before, names_part, path_before};
use crate::path::{names, paths, utf8_lossy, FsPath, PathView};
use crate::store::{first_with, ids, store_name, Snap, StoreView};
use vstd::prelude::*;
use vstd::utf8::encode_utf8;

verus! {

/// An entry of a directory is one name further, and in that directory.
pub proof fn entry_is_in_its_directory(dir: PathView, name: Seq<u8>, text: Seq<char>)
    ensures
        dir.child(name).parts == dir.parts.push(name),
        dir.child(name).absolute == dir.absolute,
        dir.child(name).parent() == Some(dir),
        dir.entry(text) == dir.child(encode_utf8(text)),
{
    assert(dir.parts.push(name).drop_last() =~= dir.parts);
}

/// Only a path without names is in no directory; any other is the entry with its last
/// name in the directory that it is in.
pub proof fn path_is_in_its_parent(p: PathView)
    ensures
        p.parent() is None <==> p.parts.len() == 0,
        p.parent() matches Some(up) ==> up.child(p.parts.last()) == p,
{
    if p.parts.len() > 0 {
        assert(p.parts.drop_last().push(p.parts.last()) =~= p.parts);
    }
}

/// The name of a path is its last one, unless that is one dot or two.
pub proof fn name_is_the_last(p: PathView, n: Seq<u8>)
    ensures
        p.file_name() == Some(n) <==> {
            &&& p.parts.len() > 0
            &&& p.parts.last() == n
            &&& !(n.len() == 1 && n[0] == 46)
            &&& !(n.len() == 2 && n[0] == 46 && n[1] == 46)
        },
{
    if n.len() == 1 && n[0] == 46 {
        assert(n =~= seq![46u8]);
    }
    if n.len() == 2 && n[0] == 46 && n[1] == 46 {
        assert(n =~= seq![46u8, 46u8]);
    }
}

/// A path that gets another name stays in its directory; one without a name gets one.
pub proof fn renaming_stays_in_the_directory(p: PathView, name: Seq<u8>)
    ensures
        p.file_name() is Some ==> p.parent() is Some && p.with_file_name(name)
            == p.parent()->0.child(name),
        p.file_name() is None ==> p.with_file_name(name) == p.child(name),
{
}

/// A path is written as its names with slashes between them, after a slash where it
/// starts at the root, and shown as it is written.
pub proof fn path_is_written_name_by_name(p: PathView, name: Seq<u8>)
    ensures
        p.parts.len() == 0 ==> p.written() == if p.absolute {
            seq![47u8]
        } else {
            Seq::empty()
        },
        p.child(name).written() == if p.parts.len() == 0 {
            p.written() + name
        } else {
            p.written().push(47u8) + name
        },
        p.shown() == utf8_lossy(p.written()),
{
    assert(p.child(name).parts.drop_last() =~= p.parts);
    let before = p.written();
    if p.parts.len() == 0 {
        assert(p.child(name).written() =~= before + name);
    } else {
        assert(p.child(name).written() =~= before.push(47u8) + name);
    }
    if p.parts.len() == 0 && p.absolute {
        assert(p.written() =~= seq![47u8]);
    }
}

/// Lists of names and of paths are seen item by item.
pub proof fn lists_are_seen_item_by_item(v: Seq<Vec<u8>>, w: Seq<FsPath>)
    ensures
        names(v).len() == v.len(),
        forall|i: int| 0 <= i < v.len() ==> #[trigger] names(v)[i] == v[i]@,
        paths(w).len() == w.len(),
        forall|i: int| 0 <= i < w.len() ==> #[trigger] paths(w)[i] == w[i]@,
{
}

/// Of two names, the first byte in which they differ decides; a name comes before those
/// that go on from it.
pub proof fn names_are_ordered_by_bytes(
    same: Seq<u8>,
    a: u8,
    b: u8,
    x: Seq<u8>,
    y: Seq<u8>,
)
    ensures
        a != b ==> (name_before(same.push(a) + x, same.push(b) + y) <==> a < b),
        name_before(same, same.push(b) + y),
        !name_before(same.push(b) + y, same),
        !name_before(same, same),
{
    let p = same.push(a) + x;
    let q = same.push(b) + y;
    let k = same.len() as int;
    if a < b {
        assert(bytes_part(p, q, k));
    }
    if name_before(p, q) && a != b {
        let j = choose|j: int| bytes_part(p, q, j);
        assert(p[k] == a && q[k] == b);
        if j < k {
            assert(p[j] == same[j] && q[j] == same[j]);
        }
    }
    assert(bytes_part(same, q, k));
    if name_before(q, same) {
        let j = choose|j: int| bytes_part(q, same, j);
        assert(q[j] == same[j]);
    }
}

/// Of two paths, the first name in which they differ decides; a directory comes before
/// what is in it.
pub proof fn paths_are_ordered_by_names(
    same: Seq<Seq<u8>>,
    a: Seq<u8>,
    b: Seq<u8>,
    x: Seq<Seq<u8>>,
    y: Seq<Seq<u8>>,
)
    ensures
        a != b ==> (path_before(same.push(a) + x, same.push(b) + y) <==> name_before(a, b)),
        path_before(same, same.push(b) + y),
        !path_before(same.push(b) + y, same),
        !path_before(same, same),
{
    let p = same.push(a) + x;
    let q = same.push(b) + y;
    let k = same.len() as int;
    assert(p[k] == a && q[k] == b);
    if name_before(a, b) {
        assert(names_part(p, q, k));
    }
    if path_before(p, q) && a != b {
        let j = choose|j: int| names_part(p, q, j);
        if j < k {
            assert(p[j] == same[j] && q[j] == same[j]);
            lemma_not_before_itself(same[j]);
        }
    }
    assert(names_part(same, q, k));
    if path_before(q, same) {
        let j = choose|j: int| names_part(q, same, j);
        assert(q[j] == same[j]);
        lemma_not_before_itself(same[j]);
    }
    if path_before(same, same) {
        let j = choose|j: int| names_part(same, same, j);
        lemma_not_before_itself(same[j]);
    }
}

proof fn lemma_not_before_itself(a: Seq<u8>)
    ensures
        !name_before(a, a),
{
}

/// An entry is a symlink where the system says so, else a directory, else a file, and
/// else a socket, a fifo or a device.
pub proof fn kind_is_what_the_system_says(is_symlink: bool, is_dir: bool, is_file: bool)
    ensures
        kind_of(is_symlink, is_dir, is_file) == EntryKind::Symlink <==> is_symlink,
        kind_of(is_symlink, is_dir, is_file) == EntryKind::Dir <==> is_dir && !is_symlink,
        kind_of(is_symlink, is_dir, is_file) == EntryKind::File <==> is_file && !is_dir
            && !is_symlink,
{
}

/// The store is the entry `.timefork` of the workspace, and its parts are entries of
/// the store.
pub proof fn store_is_in_the_workspace(root: PathView, store: StoreView)
    ensures
        store_name() == encode_utf8(".timefork"@),
        StoreView::at(root).root == root,
        StoreView::at(root).dir == root.child(encode_utf8(".timefork"@)),
        store.trees_dir() == store.dir.child(encode_utf8("trees"@)),
        store.tmp_dir() == store.dir.child(encode_utf8("tmp"@)),
        store.trash_dir() == store.dir.child(encode_utf8("trash"@)),
{
}

/// The tree of a checkpoint is among the trees, under the digits of its number: six of
/// them, or as many as it takes.
pub proof fn tree_is_named_by_its_number(store: StoreView, id: u64)
    ensures
        exists|name: Seq<char>|
            {
                &&& store.tree(id) == #[trigger] store.trees_dir().entry(name)
                &&& all_digits(name)
                &&& digits_value(name) == id
                &&& name.len() >= 6
                &&& name.len() > 6 ==> name == decimal(id as nat)
            },
{
    let d = decimal(id as nat);
    let name = padded_left(d, 6, '0');
    lemma_decimal_digits(id as nat);
    lemma_leading_zeros(d, (6 - d.len()) as nat);
    assert(all_digits(name)) by {
        assert forall|i: int| 0 <= i < name.len() implies is_digit(#[trigger] name[i]) by {
            if d.len() >= 6 {
                assert(name[i] == d[i]);
            } else if i >= 6 - d.len() {
                assert(name[i] == d[i - (6 - d.len())]);
            }
        }
    }
    assert(store.tree(id) == store.trees_dir().entry(name));
}

/// The numbers of a journal are those of its checkpoints, in order, and a checkpoint is
/// the first with its number where none before it has that number.
pub proof fn checkpoints_go_by_their_numbers(snaps: Seq<Snap>, id: u64, i: int)
    ensures
        ids(snaps).len() == snaps.len(),
        forall|k: int| 0 <= k < snaps.len() ==> #[trigger] ids(snaps)[k] == snaps[k].id,
        first_with(snaps, id, i) <==> {
            &&& 0 <= i < snaps.len()
            &&& snaps[i].id == id
            &&& !ids(snaps.take(i)).contains(id)
        },
{
    let front = ids(snaps.take(i));
    if 0 <= i < snaps.len() {
        assert forall|k: int| 0 <= k < i implies #[trigger] front[k] == snaps[k].id by {}
        if first_with(snaps, id, i) && front.contains(id) {
            let k = choose|k: int| 0 <= k < front.len() && front[k] == id;
            assert(snaps[k].id != id);
        }
        if snaps[i].id == id && !front.contains(id) {
            assert forall|k: int| 0 <= k < i implies (#[trigger] snaps[k]).id != id by {
                assert(front[k] == snaps[k].id);
                assert(front.contains(front[k]));
            }
        }
    }
}

} // verus!
