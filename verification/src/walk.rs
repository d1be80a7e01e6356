//! Walking through a tree, directory by directory.
//!
//! A `Walker` decides which directory is to be listed next. Whoever holds it
//! lists that directory and tells what is in it with `listed`.

use crate::disk::{classify, kind_of, EntryKind};
use crate::listing::{entries, recorded, Entry, EntryView, Listing, Meta};
use crate::path::{copy_name, paths, same_name, FsPath, PathView};
use crate::store::{store_name, STORE_DIR};
use vstd::prelude::*;

verus! {

/// What the file system says of an entry of a directory.
#[derive(Debug)]
pub struct RawEntry {
    pub name: Vec<u8>,
    pub is_symlink: bool,
    pub is_dir: bool,
    pub is_file: bool,
    pub len: u64,
    /// Nanoseconds since the Unix epoch, where there is such a time.
    pub mtime_ns: Option<i128>,
}

#[verifier::ext_equal]
pub struct RawView {
    pub name: Seq<u8>,
    pub is_symlink: bool,
    pub is_dir: bool,
    pub is_file: bool,
    pub len: u64,
    pub mtime_ns: Option<i128>,
}

impl View for RawEntry {
    type V = RawView;

    open spec fn view(&self) -> RawView {
        RawView {
            name: self.name@,
            is_symlink: self.is_symlink,
            is_dir: self.is_dir,
            is_file: self.is_file,
            len: self.len,
            mtime_ns: self.mtime_ns,
        }
    }
}

impl RawView {
    pub open spec fn kind(self) -> EntryKind {
        kind_of(self.is_symlink, self.is_dir, self.is_file)
    }

    /// What is recorded of the entry; of a directory only that it is one.
    pub open spec fn meta(self) -> Meta {
        if self.kind() == EntryKind::Dir {
            Meta { kind: EntryKind::Dir, len: 0, mtime_ns: (-1) as i128 }
        } else {
            Meta {
                kind: self.kind(),
                len: self.len,
                mtime_ns: match self.mtime_ns {
                    Some(t) => t,
                    None => (-1) as i128,
                },
            }
        }
    }
}

impl RawEntry {
    fn meta(&self) -> (r: Meta)
        ensures
            r == self@.meta(),
    {
        let kind = classify(self.is_symlink, self.is_dir, self.is_file);
        if kind == EntryKind::Dir {
            Meta { kind, len: 0, mtime_ns: -1 }
        } else {
            let mtime_ns: i128 = match self.mtime_ns {
                Some(t) => t,
                None => -1,
            };
            Meta { kind, len: self.len, mtime_ns }
        }
    }
}

/// The views of a list of entries.
pub open spec fn raws(v: Seq<RawEntry>) -> Seq<RawView> {
    v.map_values(|e: RawEntry| e@)
}

/// A walk under way.
#[derive(Debug)]
pub struct Walker {
    /// Whether the tree is the live workspace, whose store does not count.
    pub live: bool,
    /// Directories that are still to be listed, the next one last.
    pub pending: Vec<FsPath>,
    /// What was found.
    pub found: Vec<Entry>,
}

#[verifier::ext_equal]
pub struct WalkerView {
    pub live: bool,
    pub pending: Seq<PathView>,
    pub found: Seq<EntryView>,
}

impl View for Walker {
    type V = WalkerView;

    open spec fn view(&self) -> WalkerView {
        WalkerView {
            live: self.live,
            pending: paths(self.pending@),
            found: entries(self.found@),
        }
    }
}

/// What counts of the entries of the directory `dir`: the store does not, in
/// the live workspace itself.
pub open spec fn counted(live: bool, dir: PathView, listing: Seq<RawView>) -> Seq<RawView> {
    if live && dir.parts.len() == 0 {
        listing.filter(|e: RawView| e.name != store_name())
    } else {
        listing
    }
}

/// What is recorded of the entries of the directory `dir`.
pub open spec fn records(dir: PathView, listing: Seq<RawView>) -> Seq<EntryView> {
    listing.map_values(
        |e: RawView| EntryView { path: dir.parts.push(e.name), meta: e.meta() },
    )
}

/// The directories among the entries of the directory `dir`.
pub open spec fn subdirs(dir: PathView, listing: Seq<RawView>) -> Seq<PathView> {
    listing.filter(|e: RawView| e.kind() == EntryKind::Dir).map_values(
        |e: RawView| dir.child(e.name),
    )
}

impl WalkerView {
    /// The start of a walk.
    pub open spec fn start(live: bool) -> WalkerView {
        WalkerView {
            live,
            pending: seq![PathView { absolute: false, parts: Seq::empty() }],
            found: Seq::empty(),
        }
    }

    /// The directory that is to be listed next; none when the walk is finished.
    pub open spec fn next(self) -> Option<PathView> {
        if self.pending.len() > 0 {
            Some(self.pending.last())
        } else {
            None
        }
    }

    /// The next directory holds the entries `listing`.
    pub open spec fn after_listed(self, listing: Seq<RawView>) -> WalkerView {
        let dir = self.pending.last();
        let all = counted(self.live, dir, listing);
        WalkerView {
            live: self.live,
            pending: self.pending.drop_last() + subdirs(dir, all),
            found: self.found + records(dir, all),
        }
    }
}

impl Walker {
    /// Starts a walk through a tree; `live` says whether it is the live
    /// workspace.
    pub fn new(live: bool) -> (r: Walker)
        ensures
            r@ == WalkerView::start(live),
    {
        let mut pending: Vec<FsPath> = Vec::new();
        let top = FsPath { absolute: false, parts: Vec::new() };
        pending.push(top);
        let r = Walker { live, pending, found: Vec::new() };
        assert(top@ =~= (PathView { absolute: false, parts: Seq::empty() }));
        assert(r@ =~= WalkerView::start(live));
        r
    }

    /// The directory, in the tree, that is to be listed next; none when the
    /// walk is finished.
    pub fn next(&self) -> (r: Option<&FsPath>)
        ensures
            match r {
                Some(dir) => self@.next() == Some(dir@),
                None => self@.next() is None,
            },
    {
        if self.pending.len() == 0 {
            None
        } else {
            Some(&self.pending[self.pending.len() - 1])
        }
    }

    /// The next directory holds the entries `listing`.
    pub fn listed(&mut self, listing: &Vec<RawEntry>)
        requires
            old(self)@.next() is Some,
        ensures
            final(self)@ == old(self)@.after_listed(raws(listing@)),
    {
        let ghost before = self@;
        let dir = match self.pending.pop() {
            Some(dir) => dir,
            None => {
                return;
            },
        };
        let skip_store: bool = self.live && dir.parts.len() == 0;
        let store: Vec<u8> = STORE_DIR.as_bytes_vec();
        let ghost all = raws(listing@);
        let ghost d = dir@;
        let ghost is_dir = |e: RawView| e.kind() == EntryKind::Dir;
        let ghost child = |e: RawView| d.child(e.name);
        let ghost visible = |e: RawView| e.name != store_name();
        let mut i: usize = 0;
        proof {
            reveal_with_fuel(Seq::<_>::filter, 1);
            assert(counted(before.live, d, all.take(0)) =~= Seq::empty());
            assert(subdirs(d, Seq::empty()) =~= Seq::empty());
            assert(records(d, Seq::empty()) =~= Seq::empty());
            assert(self@.pending =~= before.pending.drop_last());
            assert(self@.found =~= before.found);
        }
        while i < listing.len()
            invariant
                i <= listing@.len(),
                all == raws(listing@),
                d == dir@,
                store@ == store_name(),
                skip_store == (before.live && d.parts.len() == 0),
                self.live == before.live,
                is_dir == (|e: RawView| e.kind() == EntryKind::Dir),
                child == (|e: RawView| d.child(e.name)),
                visible == (|e: RawView| e.name != store_name()),
                self@.pending == before.pending.drop_last() + subdirs(
                    d,
                    counted(before.live, d, all.take(i as int)),
                ),
                self@.found == before.found + records(
                    d,
                    counted(before.live, d, all.take(i as int)),
                ),
            decreases listing@.len() - i,
        {
            let e = &listing[i];
            let ghost seen = counted(before.live, d, all.take(i as int));
            let ghost now = counted(before.live, d, all.take(i + 1));
            let ghost was = self@;
            proof {
                assert(all.take(i + 1) =~= all.take(i as int).push(e@));
                all.take(i as int).lemma_filter_push(e@, visible);
                seen.lemma_filter_push(e@, is_dir);
            }
            if !(skip_store && same_name(&e.name, &store)) {
                let meta = e.meta();
                let path = dir.child(copy_name(&e.name));
                if meta.kind == EntryKind::Dir {
                    let sub = path.clone();
                    self.pending.push(sub);
                    assert(paths(self.pending@) =~= was.pending.push(sub@));
                }
                let entry = Entry { path: path.parts, meta };
                self.found.push(entry);
                proof {
                    assert(now =~= seen.push(e@));
                    assert(entries(self.found@) =~= was.found.push(entry@));
                    assert(records(d, now) =~= records(d, seen).push(entry@));
                    if is_dir(e@) {
                        assert(subdirs(d, now) =~= subdirs(d, seen).push(d.child(e.name@)));
                    } else {
                        assert(subdirs(d, now) =~= subdirs(d, seen));
                    }
                    assert(self@.pending =~= before.pending.drop_last() + subdirs(d, now));
                    assert(self@.found =~= before.found + records(d, now));
                }
            } else {
                assert(now =~= seen);
            }
            i += 1;
        }
        assert(all.take(i as int) =~= all);
        assert(self@ =~= before.after_listed(all));
    }

    /// What the finished walk found.
    pub fn finish(&self) -> (r: Listing)
        requires
            self@.next() is None,
        ensures
            r@ == recorded(self@.found),
    {
        Listing::new(&self.found)
    }
}

} // verus!
