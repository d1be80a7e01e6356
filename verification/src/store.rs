//! The `.timefork` store: where it is, how it is laid out, and what its files
//! hold.

use crate::action::{actions, Action, ActionView};
use crate::error::{Error, ErrorView};
use crate::number::{decimal, decimal_text, padded_left, push_padded_left};
use crate::path::{FsPath, PathView};
use crate::text::opt_text;
use vstd::prelude::*;
use vstd::utf8::encode_utf8;

verus! {

/// The name of the directory that holds the store.
pub const STORE_DIR: &'static str = ".timefork";

/// The name of the directory that holds the store, in bytes.
pub open spec fn store_name() -> Seq<u8> {
    encode_utf8(STORE_DIR@)
}

/// One checkpoint, as the journal records it.
#[derive(Debug)]
pub struct Snap {
    pub id: u64,
    /// Seconds since the Unix epoch.
    pub ts: u64,
    /// `manual`, `hook`, `session-start`, `pre-restore` or `baseline`.
    pub origin: String,
    pub label: String,
    /// The tool that was about to run.
    pub tool: Option<String>,
    /// The agent session.
    pub session: Option<String>,
    pub git_head: Option<String>,
    /// Entries of the workspace itself that were cloned.
    pub entries: Option<u64>,
    /// Milliseconds that the checkpoint took.
    pub took_ms: Option<u64>,
}

#[verifier::ext_equal]
pub struct SnapView {
    pub id: u64,
    pub ts: u64,
    pub origin: Seq<char>,
    pub label: Seq<char>,
    pub tool: Option<Seq<char>>,
    pub session: Option<Seq<char>>,
    pub git_head: Option<Seq<char>>,
    pub entries: Option<u64>,
    pub took_ms: Option<u64>,
}

impl View for Snap {
    type V = SnapView;

    open spec fn view(&self) -> SnapView {
        SnapView {
            id: self.id,
            ts: self.ts,
            origin: self.origin@,
            label: self.label@,
            tool: opt_text(self.tool),
            session: opt_text(self.session),
            git_head: opt_text(self.git_head),
            entries: self.entries,
            took_ms: self.took_ms,
        }
    }
}

/// The numbers of the checkpoints, in the order of the journal.
pub open spec fn ids(snaps: Seq<Snap>) -> Seq<u64> {
    snaps.map_values(|s: Snap| s.id)
}

/// Whether `i` is the place of the first checkpoint with the number `id`.
pub open spec fn first_with(snaps: Seq<Snap>, id: u64, i: int) -> bool {
    &&& 0 <= i < snaps.len()
    &&& snaps[i].id == id
    &&& forall|k: int| 0 <= k < i ==> (#[trigger] snaps[k]).id != id
}

/// What the store keeps of the numbers of its checkpoints.
#[derive(Debug, PartialEq, Eq, Structural, Clone, Copy)]
pub struct State {
    /// The number of the next checkpoint.
    pub next_id: u64,
}

impl State {
    /// The state of a store that has no checkpoint yet.
    pub fn first() -> (r: State)
        ensures
            r.next_id == 1,
    {
        State { next_id: 1 }
    }
}

/// A store, and the workspace that it belongs to.
#[derive(Debug)]
pub struct Store {
    /// The workspace: the directory that holds the store.
    pub root: FsPath,
    /// The store itself.
    pub dir: FsPath,
}

#[verifier::ext_equal]
pub struct StoreView {
    pub root: PathView,
    pub dir: PathView,
}

impl View for Store {
    type V = StoreView;

    open spec fn view(&self) -> StoreView {
        StoreView { root: self.root@, dir: self.dir@ }
    }
}

impl StoreView {
    /// The store of the workspace at `root`.
    pub open spec fn at(root: PathView) -> StoreView {
        StoreView { root, dir: root.entry(STORE_DIR@) }
    }

    /// Makes the directories of the store.
    pub open spec fn layout(self) -> Seq<ActionView> {
        seq![
            ActionView::MakeDir(self.dir),
            ActionView::MakeDir(self.trees_dir()),
            ActionView::MakeDir(self.tmp_dir()),
            ActionView::MakeDir(self.trash_dir()),
        ]
    }

    pub open spec fn trees_dir(self) -> PathView {
        self.dir.entry("trees"@)
    }

    pub open spec fn tree(self, id: u64) -> PathView {
        self.trees_dir().entry(padded_left(decimal(id as nat), 6, '0'))
    }

    pub open spec fn tmp_dir(self) -> PathView {
        self.dir.entry("tmp"@)
    }

    pub open spec fn trash_dir(self) -> PathView {
        self.dir.entry("trash"@)
    }
}

/// How a search for the store goes on.
#[derive(Debug)]
pub enum Discovery {
    /// The store is found.
    Found(Store),
    /// The search goes on in the directory above.
    Above(FsPath),
}

/// The workspace that a search from `start` finds, where `holds` says which
/// directories hold a store.
pub open spec fn discovered(start: PathView, holds: spec_fn(PathView) -> bool) -> Option<PathView>
    decreases start.parts.len(),
{
    if holds(start) {
        Some(start)
    } else if start.parts.len() > 0 {
        discovered(start.parent()->0, holds)
    } else {
        None
    }
}

/// A search finds the nearest directory, at the start or above it, that holds a
/// store, and fails only where there is none.
pub proof fn discovery_finds_the_nearest(start: PathView, holds: spec_fn(PathView) -> bool)
    ensures
        match discovered(start, holds) {
            Some(r) => {
                &&& holds(r)
                &&& r.absolute == start.absolute
                &&& r.parts.is_prefix_of(start.parts)
                &&& forall|k: int|
                    r.parts.len() < k <= start.parts.len() ==> !holds(
                        PathView { absolute: start.absolute, parts: #[trigger] start.parts.take(k) },
                    )
            },
            None => forall|k: int|
                0 <= k <= start.parts.len() ==> !holds(
                    PathView { absolute: start.absolute, parts: #[trigger] start.parts.take(k) },
                ),
        },
    decreases start.parts.len(),
{
    let whole = start.parts.take(start.parts.len() as int);
    assert(whole =~= start.parts);
    if !holds(start) && start.parts.len() > 0 {
        let up = start.parent()->0;
        discovery_finds_the_nearest(up, holds);
        assert forall|k: int| 0 <= k < start.parts.len() implies #[trigger] start.parts.take(k)
            == up.parts.take(k) by {
            assert(start.parts.take(k) =~= up.parts.take(k));
        }
        if let Some(r) = discovered(up, holds) {
            assert(r.parts =~= start.parts.take(r.parts.len() as int));
        }
    }
}

impl Store {
    /// One step of the search for the store: `holds_store` says whether the
    /// directory `cur` holds a directory with the store's name.
    pub fn discover_from(cur: FsPath, holds_store: bool) -> (r: Result<Discovery, Error>)
        ensures
            match r {
                Ok(Discovery::Found(store)) => holds_store && store@ == StoreView::at(cur@),
                Ok(Discovery::Above(up)) => !holds_store && cur@.parent() == Some(up@),
                Err(e) => !holds_store && cur@.parent() is None && e@ == ErrorView::NoStore,
            },
            forall|holds: spec_fn(PathView) -> bool|
                holds(cur@) == holds_store ==> #[trigger] discovered(cur@, holds) == match r {
                    Ok(Discovery::Found(store)) => Some(store@.root),
                    Ok(Discovery::Above(up)) => discovered(up@, holds),
                    Err(_) => None,
                },
    {
        if holds_store {
            let dir = cur.entry(STORE_DIR);
            return Ok(Discovery::Found(Store { root: cur, dir }));
        }
        match cur.parent() {
            Some(up) => Ok(Discovery::Above(up)),
            None => Err(Error::NoStore),
        }
    }

    /// The store of the workspace at `root`, which must not have one yet:
    /// `taken` says whether something is where the store is to be.
    pub fn init(root: &FsPath, taken: bool) -> (r: Result<Store, Error>)
        ensures
            match r {
                Ok(store) => !taken && store@ == StoreView::at(root@),
                Err(e) => taken && e@ == ErrorView::AlreadyInitialized(StoreView::at(root@).dir),
            },
    {
        let dir = root.entry(STORE_DIR);
        if taken {
            Err(Error::AlreadyInitialized(dir))
        } else {
            Ok(Store { root: root.clone(), dir })
        }
    }

    /// Makes the directories of the store.
    pub fn layout(&self) -> (r: Vec<Action>)
        ensures
            actions(r@) == self@.layout(),
    {
        let mut r: Vec<Action> = Vec::new();
        r.push(Action::MakeDir(self.dir.clone()));
        r.push(Action::MakeDir(self.trees_dir()));
        r.push(Action::MakeDir(self.tmp_dir()));
        r.push(Action::MakeDir(self.trash_dir()));
        assert(actions(r@) =~= self@.layout());
        r
    }

    /// The directory of the checkpoint trees.
    pub fn trees_dir(&self) -> (r: FsPath)
        ensures
            r@ == self@.trees_dir(),
    {
        self.dir.entry("trees")
    }

    /// The tree of the checkpoint `id`.
    pub fn tree(&self, id: u64) -> (r: FsPath)
        ensures
            r@ == self@.tree(id),
    {
        let digits = decimal_text(id);
        let mut name = String::new();
        push_padded_left(&mut name, digits.as_str(), 6, '0');
        assert(name@ =~= padded_left(decimal(id as nat), 6, '0'));
        self.trees_dir().entry(name.as_str())
    }

    /// The directory where trees are staged.
    pub fn tmp_dir(&self) -> (r: FsPath)
        ensures
            r@ == self@.tmp_dir(),
    {
        self.dir.entry("tmp")
    }

    /// The directory for what restores displace.
    pub fn trash_dir(&self) -> (r: FsPath)
        ensures
            r@ == self@.trash_dir(),
    {
        self.dir.entry("trash")
    }

    /// The journal.
    pub fn journal_path(&self) -> (r: FsPath)
        ensures
            r@ == self@.dir.entry("journal.jsonl"@),
    {
        self.dir.entry("journal.jsonl")
    }

    /// The file that holds the next number.
    pub fn state_path(&self) -> (r: FsPath)
        ensures
            r@ == self@.dir.entry("state.json"@),
    {
        self.dir.entry("state.json")
    }

    /// The number of the next checkpoint.
    pub fn peek_next_id(state: &State) -> (r: u64)
        ensures
            r == state.next_id,
    {
        state.next_id
    }

    /// The state once the number `claimed` is taken.
    pub fn bump_id(claimed: u64) -> (r: State)
        requires
            claimed < u64::MAX,
        ensures
            r.next_id == claimed + 1,
    {
        State { next_id: claimed + 1 }
    }

    /// The first checkpoint in the journal with the number `id`.
    pub fn find_snap(snaps: &Vec<Snap>, id: u64) -> (r: Result<&Snap, Error>)
        ensures
            match r {
                Ok(s) => exists|i: int| #[trigger] first_with(snaps@, id, i) && *s == snaps@[i],
                Err(e) => e@ == ErrorView::NoCheckpoint(id) && !ids(snaps@).contains(id),
            },
    {
        let mut i: usize = 0;
        while i < snaps.len()
            invariant
                i <= snaps@.len(),
                forall|k: int| 0 <= k < i ==> (#[trigger] snaps@[k]).id != id,
            decreases snaps@.len() - i,
        {
            if snaps[i].id == id {
                assert(first_with(snaps@, id, i as int));
                return Ok(&snaps[i]);
            }
            i += 1;
        }
        assert forall|k: int| 0 <= k < snaps@.len() implies #[trigger] ids(snaps@)[k] != id by {
            assert(ids(snaps@)[k] == snaps@[k].id);
        }
        Err(Error::NoCheckpoint(id))
    }
}

/// A store is made of four directories: its own, and three in that one.
pub proof fn store_has_four_directories(store: StoreView, i: int)
    requires
        0 <= i < 4,
    ensures
        ({
            let made = store.layout();
            &&& made.len() == 4
            &&& made[i] is MakeDir
            &&& i == 0 ==> made[i]->MakeDir_0 == store.dir
            &&& i == 1 ==> made[i]->MakeDir_0 == store.dir.child(encode_utf8("trees"@))
            &&& i == 2 ==> made[i]->MakeDir_0 == store.dir.child(encode_utf8("tmp"@))
            &&& i == 3 ==> made[i]->MakeDir_0 == store.dir.child(encode_utf8("trash"@))
        }),
{
}

} // verus!
