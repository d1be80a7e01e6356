//! Forks: where they go, and what they are made of.

use crate::action::{Action, ActionView};
use crate::error::{Error, ErrorView};
use crate::number::{decimal, decimal_is_injective, decimal_text, push_decimal};
use crate::path::{names, paths, utf8_lossy, FsPath, PathView};
use crate::place::lemma_encode_injective;
use crate::store::{store_name, Store, StoreView, STORE_DIR};
use crate::tree_ref::TreeRef;
use vstd::prelude::*;
use vstd::utf8::{
    decode_utf8, encode_utf8, encode_utf8_decode_utf8, encode_utf8_valid_utf8, valid_utf8,
};

verus! {

/// What the name of a path reads as; `default` where it has none.
pub open spec fn read_name(p: PathView, default: Seq<char>) -> Seq<char> {
    match p.file_name() {
        Some(n) => utf8_lossy(n),
        None => default,
    }
}

/// What a fork is called after: the number of the checkpoint, or `live`.
pub open spec fn fork_suffix(source: TreeRef) -> Seq<char> {
    match source {
        TreeRef::Live => "live"@,
        TreeRef::Id(id) => decimal(id as nat),
    }
}

/// The name of the `k`th of `count` forks.
pub open spec fn fork_name(repo: Seq<char>, suffix: Seq<char>, k: u32, count: u32) -> Seq<char> {
    let base = repo + "-fork-"@ + suffix;
    if count > 1 {
        base + "-"@ + decimal(k as nat)
    } else {
        base
    }
}

/// Where the `k`th of `count` forks goes: next to the workspace, unless `dest`
/// says where.
pub open spec fn fork_target(
    store: StoreView,
    source: TreeRef,
    k: u32,
    count: u32,
    dest: Option<PathView>,
) -> PathView {
    match dest {
        Some(d) => if count == 1 {
            d
        } else {
            d.with_file_name(encode_utf8(read_name(d, Seq::empty()) + "-"@ + decimal(k as nat)))
        },
        None => store.root.parent()->0.entry(
            fork_name(read_name(store.root, "workspace"@), fork_suffix(source), k, count),
        ),
    }
}

/// Makes a fork at `target`. A fork of the live workspace gets no store.
pub open spec fn fork_action(store: StoreView, source: TreeRef, target: PathView) -> ActionView {
    ActionView::Clone {
        src: source.place(store),
        dst: target,
        exclude: if source is Live {
            seq![store_name()]
        } else {
            Seq::empty()
        },
    }
}

/// Forks of one tree.
#[derive(Debug)]
pub struct Forks {
    source: TreeRef,
    src: FsPath,
    parent: FsPath,
    repo: String,
    suffix: String,
}

impl Forks {
    /// Whether these are forks of the tree `source` of `store`.
    pub closed spec fn of(self, store: StoreView, source: TreeRef) -> bool {
        &&& self.source == source
        &&& self.src@ == source.place(store)
        &&& store.root.parent() == Some(self.parent@)
        &&& self.repo@ == read_name(store.root, "workspace"@)
        &&& self.suffix@ == fork_suffix(source)
        &&& store.root.file_name() matches Some(n) ==> valid_utf8(n) ==> self.repo@ == decode_utf8(
            n,
        )
    }
}

/// Forks of the tree `source`; `has_tree` says whether the tree of a checkpoint
/// is there.
pub fn fork(store: &Store, source: TreeRef, has_tree: bool) -> (r: Result<Forks, Error>)
    ensures
        match r {
            Ok(forks) => {
                &&& source is Live || has_tree
                &&& store@.root.parent() is Some
                &&& forks.of(store@, source)
            },
            Err(e) => match source {
                TreeRef::Id(id) if !has_tree => e@ == ErrorView::NoTree(id),
                _ => store@.root.parent() is None && e@ == ErrorView::NoParent,
            },
        },
{
    let src = match source.resolve(store, has_tree) {
        Ok((src, _)) => src,
        Err(e) => {
            return Err(e);
        },
    };
    let repo = match store.root.file_name_text() {
        Some(name) => name,
        None => "workspace".to_owned(),
    };
    let suffix = match source {
        TreeRef::Live => "live".to_owned(),
        TreeRef::Id(id) => decimal_text(id),
    };
    match store.root.parent() {
        Some(parent) => Ok(Forks { source, src, parent, repo, suffix }),
        None => Err(Error::NoParent),
    }
}

impl Forks {
    /// Where the `k`th of `count` forks goes: next to the workspace, unless
    /// `dest` says where.
    pub fn target(&self, k: u32, count: u32, dest: Option<&FsPath>) -> (r: FsPath)
        ensures
            forall|store: StoreView, source: TreeRef| #[trigger]
                self.of(store, source) ==> r@ == fork_target(
                    store,
                    source,
                    k,
                    count,
                    match dest {
                        Some(d) => Some(d@),
                        None => None,
                    },
                ),
            dest is None ==> forall|store: StoreView, source: TreeRef| #[trigger]
                self.of(store, source) ==> r@ != store.root,
    {
        match dest {
            Some(d) => if count == 1 {
                d.clone()
            } else {
                let mut name = match d.file_name_text() {
                    Some(name) => name,
                    None => String::new(),
                };
                assert(name@ =~= read_name(d@, Seq::empty()));
                name.append("-");
                push_decimal(&mut name, k as u64);
                d.with_file_name(name.as_str().as_bytes_vec())
            },
            None => {
                let mut name = self.repo.clone();
                name.append("-fork-");
                name.append(self.suffix.as_str());
                if count > 1 {
                    name.append("-");
                    push_decimal(&mut name, k as u64);
                }
                assert(name@ =~= fork_name(self.repo@, self.suffix@, k, count));
                let r = self.parent.entry(name.as_str());
                proof {
                    assert forall|store: StoreView, source: TreeRef| #[trigger]
                        self.of(store, source) implies r@ != store.root by {
                        self.lemma_beside(store, source, k, count);
                    }
                }
                r
            },
        }
    }

    proof fn lemma_beside(self, store: StoreView, source: TreeRef, k: u32, count: u32)
        requires
            self.of(store, source),
        ensures
            fork_target(store, source, k, count, None) != store.root,
    {
        let target = fork_target(store, source, k, count, None);
        let name = fork_name(self.repo@, self.suffix@, k, count);
        if target == store.root {
            assert(target.parts.last() == encode_utf8(name));
            let n = encode_utf8(name);
            encode_utf8_valid_utf8(name);
            encode_utf8_decode_utf8(name);
            assert(store.root.parts.last() == n);
            reveal_strlit("-fork-");
            reveal_strlit("workspace");
            assert(name.len() > self.repo@.len());
            assert(name.len() > 2);
            encode_utf8_decode_utf8(name);
            if store.root.file_name() is None {
                assert(n == seq![46u8] || n == seq![46u8, 46u8]);
                lemma_decode_short(n);
            }
        }
    }

    /// Makes a fork at `target`; `taken` says whether something is there.
    pub fn make(&self, target: FsPath, taken: bool) -> (r: Result<Action, Error>)
        ensures
            match r {
                Ok(a) => !taken && forall|store: StoreView, source: TreeRef| #[trigger]
                    self.of(store, source) ==> a@ == fork_action(store, source, target@),
                Err(e) => taken && e@ == ErrorView::DestinationExists(target@),
            },
    {
        if taken {
            return Err(Error::DestinationExists(target));
        }
        let mut exclude: Vec<Vec<u8>> = Vec::new();
        if self.source == TreeRef::Live {
            exclude.push(STORE_DIR.as_bytes_vec());
            assert(names(exclude@) =~= seq![store_name()]);
        } else {
            assert(names(exclude@) =~= Seq::empty());
        }
        Ok(Action::Clone { src: self.src.clone(), dst: target, exclude })
    }
}

/// Forks being made, one after the other.
#[derive(Debug)]
pub struct Forking {
    forks: Forks,
    count: u32,
    dest: Option<FsPath>,
    created: Vec<FsPath>,
}

impl Forking {
    /// Whether `count` forks of the tree `source` of `store` are being made, at `dest`
    /// where that is given.
    pub closed spec fn of(
        self,
        store: StoreView,
        source: TreeRef,
        count: u32,
        dest: Option<PathView>,
    ) -> bool {
        &&& self.forks.of(store, source)
        &&& self.count == count
        &&& dest == match self.dest {
            Some(d) => Some(d@),
            None => None,
        }
    }

    /// How many forks are to be made.
    pub closed spec fn total(self) -> nat {
        self.count as nat
    }

    /// The forks that were made.
    pub closed spec fn made(self) -> Seq<PathView> {
        paths(self.created@)
    }

    /// Starts to make `count` forks, at `dest` where that is given.
    pub fn new(forks: Forks, count: u32, dest: Option<FsPath>) -> (r: Forking)
        ensures
            forall|store: StoreView, source: TreeRef| #[trigger]
                forks.of(store, source) ==> r.of(
                    store,
                    source,
                    count,
                    match dest {
                        Some(d) => Some(d@),
                        None => None,
                    },
                ),
            r.total() == count,
            r.made() == Seq::<PathView>::empty(),
    {
        let r = Forking { forks, count, dest, created: Vec::new() };
        assert(r.made() =~= Seq::<PathView>::empty());
        r
    }

    /// Where the next fork goes; none when all were made.
    pub fn next(&self) -> (r: Option<FsPath>)
        ensures
            match r {
                Some(p) => self.made().len() < self.total() && forall|
                    store: StoreView,
                    source: TreeRef,
                    count: u32,
                    dest: Option<PathView>,
                | #[trigger]
                    self.of(store, source, count, dest) ==> p@ == fork_target(
                        store,
                        source,
                        (self.made().len() + 1) as u32,
                        count,
                        dest,
                    ),
                None => self.made().len() >= self.total(),
            },
    {
        let n: usize = self.created.len();
        if n as u64 >= self.count as u64 {
            return None;
        }
        let k: u32 = n as u32 + 1;
        match &self.dest {
            Some(d) => Some(self.forks.target(k, self.count, Some(d))),
            None => Some(self.forks.target(k, self.count, None)),
        }
    }

    /// Makes the next fork; `taken` says whether something is where it goes, which ends
    /// the matter.
    pub fn make(&mut self, taken: bool) -> (r: Result<Action, Error>)
        requires
            old(self).made().len() < old(self).total(),
        ensures
            final(self).total() == old(self).total(),
            forall|store: StoreView, source: TreeRef, count: u32, dest: Option<PathView>|
                #[trigger]
                old(self).of(store, source, count, dest) ==> {
                    let target = fork_target(
                        store,
                        source,
                        (old(self).made().len() + 1) as u32,
                        count,
                        dest,
                    );
                    &&& final(self).of(store, source, count, dest)
                    &&& match r {
                        Ok(a) => {
                            &&& a@ == fork_action(store, source, target)
                            &&& final(self).made() == old(self).made().push(target)
                        },
                        Err(e) => e@ == ErrorView::DestinationExists(target),
                    }
                },
            r is Err <==> taken,
            taken ==> *final(self) == *old(self),
    {
        let target = match self.next() {
            Some(target) => target,
            None => {
                return Err(Error::NoParent);
            },
        };
        if taken {
            return Err(Error::DestinationExists(target));
        }
        let ghost before = self.made();
        let kept = target.clone();
        self.created.push(kept);
        assert(self.made() =~= before.push(kept@));
        self.forks.make(target, false)
    }

    /// The forks that were made.
    pub fn created(&self) -> (r: &Vec<FsPath>)
        ensures
            paths(r@) == self.made(),
    {
        &self.created
    }
}

/// At most one character to a byte.
proof fn lemma_decode_short(bytes: Seq<u8>)
    requires
        valid_utf8(bytes),
    ensures
        decode_utf8(bytes).len() <= bytes.len(),
    decreases bytes.len(),
{
    if bytes.len() > 0 {
        let rest = vstd::utf8::pop_first_scalar(bytes);
        assert(rest.len() < bytes.len());
        lemma_decode_short(rest);
    }
}

/// No two of several forks go to the same place.
pub proof fn forks_are_apart(
    store: StoreView,
    source: TreeRef,
    j: u32,
    k: u32,
    count: u32,
    dest: Option<PathView>,
)
    requires
        count > 1,
        j != k,
    ensures
        fork_target(store, source, j, count, dest) != fork_target(store, source, k, count, dest),
{
    let a = fork_target(store, source, j, count, dest);
    let b = fork_target(store, source, k, count, dest);
    let stem = match dest {
        Some(d) => read_name(d, Seq::empty()) + "-"@,
        None => read_name(store.root, "workspace"@) + "-fork-"@ + fork_suffix(source) + "-"@,
    };
    let x = stem + decimal(j as nat);
    let y = stem + decimal(k as nat);
    assert(a.parts.last() == encode_utf8(x));
    assert(b.parts.last() == encode_utf8(y));
    if a == b {
        lemma_encode_injective(x, y);
        assert(x.skip(stem.len() as int) =~= decimal(j as nat));
        assert(y.skip(stem.len() as int) =~= decimal(k as nat));
        decimal_is_injective(j as nat, k as nat);
    }
}

/// A fork for which no place is given goes next to the workspace.
pub proof fn fork_is_a_sibling(store: StoreView, source: TreeRef, k: u32, count: u32)
    requires
        store.root.parent() is Some,
    ensures
        fork_target(store, source, k, count, None).parent() == store.root.parent(),
{
    let t = fork_target(store, source, k, count, None);
    assert(t.parts.drop_last() =~= store.root.parent()->0.parts);
}

} // verus!
