//! Whole operations, carried out on a disk in memory.

use std::collections::BTreeMap;
use timefork::action::Action;
use timefork::clone::{clone_entry, clone_tree, fallback_walk, CloneStats, Stage};
use timefork::diff::{diff_trees, DiffResult};
use timefork::disk::EntryKind;
use timefork::error::Error;
use timefork::fork::{fork, Forking};
use timefork::listing::Listing;
use timefork::ops::{
    confirm, report_clone_stats, restore, snap, RestoreStep, SnapMeta, SnapStep, Swap,
};
use timefork::path::FsPath;
use timefork::prune::{leftovers, prune, PrunePlan, PruneStep};
use timefork::store::{Snap, State, Store};
use timefork::tree_ref::TreeRef;
use timefork::walk::{RawEntry, Walker};

type Path = Vec<Vec<u8>>;

#[derive(Clone, Debug, PartialEq)]
enum Node {
    Dir(u32),
    File(String, i128, u32),
    Link(String, i128),
    Socket,
}

/// A directory with the permissions that a new one gets.
const NEW_DIR: Node = Node::Dir(0o755);

fn path(s: &str) -> FsPath {
    FsPath {
        absolute: s.starts_with('/'),
        parts: parts(s),
    }
}

fn parts(s: &str) -> Path {
    s.split('/')
        .filter(|x| !x.is_empty())
        .map(|x| x.as_bytes().to_vec())
        .collect()
}

struct Machine {
    disk: BTreeMap<Path, Node>,
    /// Whether entries can be cloned in one piece.
    reflink: bool,
    store: Store,
    state: State,
    journal: Vec<Snap>,
    clock: u64,
}

impl Machine {
    fn new(reflink: bool) -> Machine {
        let mut disk = BTreeMap::new();
        for dir in ["", "/home", "/home/repo"] {
            disk.insert(parts(dir), NEW_DIR);
        }
        let store = Store::init(&path("/home/repo"), false).unwrap();
        let mut m = Machine {
            disk,
            reflink,
            store,
            state: State::first(),
            journal: Vec::new(),
            clock: 1000,
        };
        for a in m.store.layout() {
            m.perform(a);
        }
        m
    }

    fn put(&mut self, name: &str, node: Node) {
        self.disk.insert(parts(&format!("/home/repo/{name}")), node);
    }

    fn write(&mut self, name: &str, text: &str) {
        self.clock += 1;
        let at = self.clock as i128;
        self.put(name, Node::File(text.to_string(), at, 0o644));
    }

    fn delete(&mut self, name: &str) {
        let p = parts(&format!("/home/repo/{name}"));
        self.disk.retain(|q, _| !q.starts_with(&p));
    }

    fn names(&self, dir: &FsPath) -> Vec<Vec<u8>> {
        self.disk
            .keys()
            .filter(|q| q.len() == dir.parts.len() + 1 && q.starts_with(&dir.parts))
            .map(|q| q.last().unwrap().clone())
            .collect()
    }

    /// What is below a directory, but for the store.
    fn content(&self, dir: &FsPath) -> BTreeMap<Path, Node> {
        self.disk
            .iter()
            .filter(|(q, _)| q.len() > dir.parts.len() && q.starts_with(&dir.parts))
            .map(|(q, n)| (q[dir.parts.len()..].to_vec(), n.clone()))
            .filter(|(q, _)| q[0] != b".timefork".to_vec())
            .collect()
    }

    fn live(&self) -> BTreeMap<Path, Node> {
        self.content(&self.store.root)
    }

    fn is_dir(&self, p: &FsPath) -> bool {
        matches!(self.disk.get(&p.parts), Some(Node::Dir(_)))
    }

    fn clone(&mut self, src: &FsPath, dst: &FsPath, exclude: Vec<Vec<u8>>) -> CloneStats {
        let mut work = clone_tree(src, dst, exclude);
        while let Some(t) = work.next() {
            let (stage, src, dst) = (t.stage, t.src.clone(), t.dst.clone());
            match stage {
                Stage::Root | Stage::Fill => {
                    self.disk.insert(dst.parts.clone(), NEW_DIR);
                    let listing = self.names(&src);
                    work.listed(listing);
                }
                Stage::Entry => {
                    let whole: Vec<(Path, Node)> = self
                        .disk
                        .iter()
                        .filter(|(q, _)| q.starts_with(&src.parts))
                        .map(|(q, n)| (q.clone(), n.clone()))
                        .collect();
                    let cloned = self.reflink && whole.iter().all(|(_, n)| *n != Node::Socket);
                    if cloned {
                        for (q, n) in whole {
                            let mut to = dst.parts.clone();
                            to.extend_from_slice(&q[src.parts.len()..]);
                            self.disk.insert(to, n);
                        }
                    }
                    clone_entry(&mut work, cloned);
                }
                Stage::Inspect => {
                    let kind = match self.disk[&src.parts] {
                        Node::Dir(_) => EntryKind::Dir,
                        Node::File(..) => EntryKind::File,
                        Node::Link(..) => EntryKind::Symlink,
                        Node::Socket => EntryKind::Other,
                    };
                    fallback_walk(&mut work, kind);
                }
                Stage::Link | Stage::Copy | Stage::Seal => {
                    let node = self.disk[&src.parts].clone();
                    self.disk.insert(dst.parts, node);
                    work.done();
                }
                Stage::Count => work.done(),
            }
        }
        work.stats
    }

    fn perform(&mut self, a: Action) -> Option<CloneStats> {
        match a {
            Action::Discard(p) | Action::Remove(p) => {
                self.disk.retain(|q, _| !q.starts_with(&p.parts));
                None
            }
            Action::MakeDir(p) => {
                self.disk.entry(p.parts).or_insert(NEW_DIR);
                None
            }
            Action::Clone { src, dst, exclude } => Some(self.clone(&src, &dst, exclude)),
            Action::Rename { from, to } => {
                assert!(!self.disk.contains_key(&to.parts));
                let moving: Vec<Path> = self
                    .disk
                    .keys()
                    .filter(|q| q.starts_with(&from.parts))
                    .cloned()
                    .collect();
                for q in moving {
                    let n = self.disk.remove(&q).unwrap();
                    let mut p = to.parts.clone();
                    p.extend_from_slice(&q[from.parts.len()..]);
                    self.disk.insert(p, n);
                }
                None
            }
            Action::DropDir(p) => {
                if self.names(&p).is_empty() {
                    self.disk.remove(&p.parts);
                }
                None
            }
        }
    }

    fn snap(&mut self, meta: SnapMeta) -> (u64, CloneStats) {
        self.clock += 1;
        let id = Store::peek_next_id(&self.state);
        let mut stats = None;
        let mut meta = Some(meta);
        for step in snap(&self.store, id, 77) {
            match step {
                SnapStep::Act(a) => {
                    if let Some(s) = self.perform(a) {
                        stats = Some(s);
                    }
                }
                SnapStep::Record => {
                    assert!(self.is_dir(&self.store.tree(id)));
                    let entries = stats.as_ref().unwrap().entries;
                    let record = meta.take().unwrap().record(id, self.clock, None, entries, 5);
                    self.journal.push(record);
                }
                SnapStep::Number => {
                    assert_eq!(self.journal.last().unwrap().id, id);
                    self.state = Store::bump_id(id);
                }
            }
        }
        (id, stats.unwrap())
    }

    fn restore(&mut self, id: u64) -> Result<u64, Error> {
        let has_tree = self.is_dir(&self.store.tree(id));
        let (target, steps) = restore(&self.journal, id, has_tree)?;
        assert_eq!(target.id, id);
        let mut taken: Option<(u64, Swap)> = None;
        for step in steps {
            let actions = match step {
                RestoreStep::Checkpoint(meta) => {
                    assert_eq!(meta.origin, "pre-restore");
                    assert_eq!(meta.label, format!("live state before restore to #{id}"));
                    let (pre, _) = self.snap(meta);
                    self.clock += 1;
                    let swap = Swap::new(&self.store, id, pre, self.clock, 77);
                    taken = Some((pre, swap));
                    vec![]
                }
                RestoreStep::Stage => taken.as_ref().unwrap().1.stage(self.store.tree(id)),
                RestoreStep::MoveOut => {
                    let swap = &taken.as_ref().unwrap().1;
                    swap.move_out(&self.names(&swap.root))
                }
                RestoreStep::MoveIn => {
                    let swap = &taken.as_ref().unwrap().1;
                    swap.move_in(&self.names(&swap.staging))
                }
            };
            for a in actions {
                self.perform(a);
            }
        }
        Ok(taken.unwrap().0)
    }

    fn prune(&mut self, keep: Option<usize>, older_than_secs: Option<u64>) -> Vec<u64> {
        let journal = std::mem::take(&mut self.journal);
        let plan = prune(journal, self.clock, keep, older_than_secs);
        let mut journal = Some(plan.kept);
        let steps = PrunePlan {
            kept: Vec::new(),
            removed: plan.removed.clone(),
        }
        .steps(&self.store);
        for step in steps {
            match step {
                PruneStep::Remove { id, tree } => {
                    assert!(plan.removed.contains(&id));
                    self.perform(tree);
                }
                PruneStep::Rewrite => self.journal = journal.take().unwrap(),
                PruneStep::Clear(dir) => {
                    for a in leftovers(&dir, &self.names(&dir)) {
                        self.perform(a);
                    }
                }
            }
        }
        plan.removed
    }

    fn walk(&self, tree: TreeRef) -> Listing {
        let (base, _) = tree.resolve(&self.store, true).unwrap();
        let mut walker = Walker::new(tree == TreeRef::Live);
        while let Some(rel) = walker.next() {
            let mut dir = base.clone();
            dir.parts.extend_from_slice(&rel.parts);
            let listing: Vec<RawEntry> = self
                .names(&dir)
                .into_iter()
                .rev()
                .map(|name| {
                    let node = &self.disk[&dir.child(name.clone()).parts];
                    RawEntry {
                        name,
                        is_symlink: matches!(node, Node::Link(..)),
                        is_dir: matches!(node, Node::Dir(_)),
                        is_file: matches!(node, Node::File(..)),
                        len: match node {
                            Node::File(s, _, _) | Node::Link(s, _) => s.len() as u64,
                            _ => 0,
                        },
                        mtime_ns: match node {
                            Node::File(_, t, _) | Node::Link(_, t) if *t >= 0 => Some(*t),
                            _ => None,
                        },
                    }
                })
                .collect();
            walker.listed(&listing);
        }
        walker.finish()
    }

    fn diff(&self, a: TreeRef, b: TreeRef) -> DiffResult {
        diff_trees(&self.walk(a), &self.walk(b))
    }
}

fn shown(v: &[FsPath]) -> Vec<String> {
    v.iter().map(|p| p.display()).collect()
}

fn manual(text: &str) -> SnapMeta {
    SnapMeta::manual(text.to_string())
}

fn filled(reflink: bool) -> Machine {
    let mut m = Machine::new(reflink);
    m.write("README", "hello");
    m.put("src", Node::Dir(0o700));
    m.write("src/main.rs", "fn main() {}");
    m.put("src/empty", Node::Dir(0o555));
    m.put("run.sh", Node::File("#!/bin/sh".to_string(), 7, 0o500));
    m.put("link", Node::Link("README".to_string(), 9));
    m
}

#[test]
fn a_checkpoint_holds_the_workspace() {
    for reflink in [true, false] {
        let mut m = filled(reflink);
        let before = m.live();
        let (id, stats) = m.snap(SnapMeta::baseline());
        assert_eq!(id, 1);
        assert_eq!(stats.entries, 4);
        assert_eq!(stats.copied, if reflink { 0 } else { 3 });
        assert!(stats.skipped.is_empty());
        assert!(report_clone_stats(&stats).is_none());
        assert_eq!(m.content(&m.store.tree(1)), before);
        assert_eq!(m.live(), before);
        assert!(m.names(&m.store.tmp_dir()).is_empty());
        let s = &m.journal[0];
        assert_eq!((s.id, s.origin.as_str()), (1, "baseline"));
        assert_eq!(s.label, "baseline (timefork init)");
        assert_eq!((s.entries, s.took_ms), (Some(4), Some(5)));
    }
}

#[test]
fn sockets_are_skipped_and_reported() {
    for reflink in [true, false] {
        let mut m = filled(reflink);
        let before = m.live();
        m.put("src/sock", Node::Socket);
        m.put("fifo", Node::Socket);
        let (id, stats) = m.snap(manual("x"));
        // the socket at the top is not among the entries that were cloned
        assert_eq!(stats.entries, 4);
        assert_eq!(m.journal[0].entries, Some(4));
        assert_eq!(shown(&stats.skipped), vec!["/home/repo/fifo", "/home/repo/src/sock"]);
        assert_eq!(
            report_clone_stats(&stats).unwrap(),
            "timefork: skipped 2 uncloneable item(s) (sockets/fifos), e.g. /home/repo/fifo"
        );
        assert_eq!(m.content(&m.store.tree(id)), before);
    }
}

#[test]
fn a_workspace_of_one_socket_has_no_entry_to_clone() {
    for reflink in [true, false] {
        let mut m = Machine::new(reflink);
        m.put("sock", Node::Socket);
        let (id, stats) = m.snap(manual("x"));
        assert_eq!(stats.entries, 0);
        assert_eq!(stats.skipped.len(), 1);
        assert!(m.content(&m.store.tree(id)).is_empty());
    }
}

#[test]
fn a_restore_brings_the_workspace_back() {
    for reflink in [true, false] {
        let mut m = filled(reflink);
        let (id, _) = m.snap(manual("good"));
        let good = m.live();
        m.delete("src");
        m.write("README", "ruined");
        m.write("scratch", "untracked");
        m.put("link", Node::Link("elsewhere".to_string(), 10));
        let ruined = m.live();
        let pre = m.restore(id).unwrap();
        assert_eq!(pre, 2);
        assert_eq!(m.live(), good);
        assert_eq!(m.content(&m.store.tree(pre)), ruined);
        let trash = m.names(&m.store.trash_dir());
        assert_eq!(trash.len(), 1);
        assert!(String::from_utf8(trash[0].clone()).unwrap().ends_with("-pre2"));
        assert_eq!(m.content(&m.store.trash_dir().child(trash[0].clone())), ruined);
        assert_eq!(m.journal[1].origin, "pre-restore");
        assert_eq!(m.journal[1].label, "live state before restore to #1");
        // and it can be undone
        m.restore(pre).unwrap();
        assert_eq!(m.live(), ruined);
        assert_eq!(m.content(&m.store.tree(id)), good);
        assert!(m.names(&m.store.tmp_dir()).is_empty());
    }
}

#[test]
fn an_empty_workspace_can_be_restored() {
    let mut m = Machine::new(true);
    let (id, _) = m.snap(manual("empty"));
    m.write("a", "1");
    m.restore(id).unwrap();
    assert!(m.live().is_empty());
}

#[test]
fn a_restore_needs_the_checkpoint_and_its_tree() {
    let mut m = filled(true);
    m.snap(manual("one"));
    let e = m.restore(9).unwrap_err();
    assert_eq!(e.message(), "no checkpoint #9 (see `timefork list`)");
    assert!(matches!(e, Error::NoCheckpoint(9)));
    let gone = m.store.tree(1);
    m.perform(Action::Remove(gone));
    let e = m.restore(1).unwrap_err();
    assert_eq!(
        e.message(),
        "checkpoint #1 has been pruned — its tree is gone"
    );
    assert!(matches!(e, Error::Pruned(1)));
    assert_eq!(m.journal.len(), 1);
    assert!(Store::find_snap(&m.journal, 1).is_ok());
}

#[test]
fn a_restore_is_confirmed() {
    for line in ["y", "Y", "yes", " yes \n", "y\r\n"] {
        assert!(confirm(false, line).is_ok());
    }
    for line in ["", "n", "YES", "yes!", "\n"] {
        let e = confirm(false, line).unwrap_err();
        assert_eq!(e.message(), "aborted");
        assert!(matches!(e, Error::Aborted));
        assert!(confirm(true, line).is_ok());
    }
}

#[test]
fn differences_are_told_by_kind_size_and_time() {
    for reflink in [true, false] {
        let mut m = filled(reflink);
        let (id, _) = m.snap(manual("base"));
        let d = m.diff(TreeRef::Id(id), TreeRef::Live);
        assert!(d.is_empty());
        m.write("src/main.rs", "fn main() {}");
        m.write("new.txt", "x");
        m.delete("README");
        m.delete("src/empty");
        m.write("src/empty", "now a file");
        let d = m.diff(TreeRef::Id(id), TreeRef::Live);
        assert!(!d.is_empty());
        assert_eq!(shown(&d.added), vec!["new.txt"]);
        assert_eq!(shown(&d.removed), vec!["README"]);
        assert_eq!(shown(&d.modified), vec!["src/empty", "src/main.rs"]);
        let back = m.diff(TreeRef::Live, TreeRef::Id(id));
        assert_eq!(shown(&back.added), shown(&d.removed));
        assert_eq!(shown(&back.removed), shown(&d.added));
        assert_eq!(shown(&back.modified), shown(&d.modified));
    }
}

#[test]
fn a_restored_workspace_does_not_differ() {
    let mut m = filled(false);
    let (id, _) = m.snap(manual("base"));
    m.write("x", "y");
    m.restore(id).unwrap();
    assert!(m.diff(TreeRef::Id(id), TreeRef::Live).is_empty());
}

#[test]
fn the_store_of_a_tree_that_is_not_live_counts() {
    let mut m = filled(true);
    m.snap(manual("base"));
    let tree = m.store.tree(1).entry(".timefork");
    m.disk.insert(tree.parts, NEW_DIR);
    let d = m.diff(TreeRef::Id(1), TreeRef::Live);
    assert_eq!(shown(&d.removed), vec![".timefork"]);
}

#[test]
fn forks_hold_their_source_and_no_store() {
    for reflink in [true, false] {
        let mut m = filled(reflink);
        let (id, _) = m.snap(manual("base"));
        let base = m.live();
        m.write("later", "1");
        let live = m.live();
        for (source, want, name) in [
            (TreeRef::Live, live.clone(), "/home/repo-fork-live"),
            (TreeRef::Id(id), base.clone(), "/home/repo-fork-1"),
        ] {
            let forks = fork(&m.store, source, true).unwrap();
            let target = forks.target(1, 1, None);
            assert_eq!(target.display(), name);
            let a = forks.make(target.clone(), false).unwrap();
            m.perform(a);
            assert_eq!(m.content(&target), want);
            assert!(!m.names(&target).contains(&b".timefork".to_vec()));
            assert_eq!(m.live(), live);
        }
        // writes in a fork do not leak back
        m.disk.insert(
            parts("/home/repo-fork-1/README"),
            Node::File("other".to_string(), 1, 0o644),
        );
        assert_eq!(m.live(), live);
        assert_eq!(m.content(&m.store.tree(id)), base);
    }
}

#[test]
fn several_forks_go_to_different_places() {
    let m = filled(true);
    let forks = fork(&m.store, TreeRef::Id(45), true).unwrap();
    let all: Vec<String> = (1..=4).map(|k| forks.target(k, 4, None).display()).collect();
    assert_eq!(
        all,
        vec![
            "/home/repo-fork-45-1",
            "/home/repo-fork-45-2",
            "/home/repo-fork-45-3",
            "/home/repo-fork-45-4",
        ]
    );
    let dest = path("/tmp/try");
    assert_eq!(forks.target(1, 1, Some(&dest)).display(), "/tmp/try");
    assert_eq!(forks.target(2, 3, Some(&dest)).display(), "/tmp/try-2");
    assert_eq!(forks.target(2, 3, Some(&path("/"))).display(), "/-2");
}

#[test]
fn forks_are_refused_where_they_cannot_go() {
    let m = filled(true);
    let e = fork(&m.store, TreeRef::Id(3), false).unwrap_err();
    assert!(matches!(e, Error::NoTree(3)));
    let top = Store::init(&path("/"), false).unwrap();
    let e = fork(&top, TreeRef::Live, false).unwrap_err();
    assert_eq!(e.message(), "workspace has no parent directory to fork into");
    assert!(matches!(e, Error::NoParent));
    let forks = fork(&m.store, TreeRef::Live, false).unwrap();
    let e = forks.make(path("/home/x"), true).unwrap_err();
    assert_eq!(e.message(), "/home/x already exists — refusing to overwrite");
    assert!(matches!(e, Error::DestinationExists(_)));
}

#[test]
fn a_prune_keeps_the_newest_and_clears_leftovers() {
    let mut m = filled(true);
    for k in 0..5 {
        m.write("README", &format!("version {k}"));
        m.snap(manual("x"));
    }
    m.restore(2).unwrap();
    let live = m.live();
    let kept = m.content(&m.store.tree(6));
    let removed = m.prune(Some(2), None);
    assert_eq!(removed, vec![1, 2, 3, 4]);
    let ids: Vec<u64> = m.journal.iter().map(|s| s.id).collect();
    assert_eq!(ids, vec![5, 6]);
    for id in 1..=4 {
        assert!(!m.is_dir(&m.store.tree(id)));
    }
    assert_eq!(m.content(&m.store.tree(6)), kept);
    assert!(m.names(&m.store.trash_dir()).is_empty());
    assert!(m.names(&m.store.tmp_dir()).is_empty());
    assert_eq!(m.live(), live);
    assert!(m.prune(Some(2), None).is_empty());
    // numbers are not used again
    let (id, _) = m.snap(manual("next"));
    assert_eq!(id, 7);
}

#[test]
fn a_restore_that_is_broken_off_loses_nothing() {
    for done in 0..=4 {
        let mut m = filled(true);
        let (id, _) = m.snap(manual("base"));
        m.write("README", "later");
        let live = m.live();
        let swap = Swap::new(&m.store, id, 2, 5000, 77);
        for a in swap.stage(m.store.tree(id)) {
            m.perform(a);
        }
        let moves = swap.move_out(&m.names(&swap.root));
        assert_eq!(moves.len(), 4);
        for a in moves.into_iter().take(done) {
            m.perform(a);
        }
        let (here, there) = (m.live(), m.content(&swap.trash));
        for (p, n) in &live {
            assert!(here.get(p) == Some(n) || there.get(p) == Some(n));
        }
        assert_eq!(here.len() + there.len(), live.len());
    }
}

#[test]
fn a_checkpoint_that_is_broken_off_changes_no_workspace() {
    for done in 0..=3 {
        let mut m = filled(false);
        let live = m.live();
        for step in snap(&m.store, 1, 77).into_iter().take(done) {
            match step {
                SnapStep::Act(a) => {
                    m.perform(a);
                }
                _ => panic!("the tree is put in place first"),
            }
        }
        assert_eq!(m.live(), live);
        assert_eq!(m.is_dir(&m.store.tree(1)), done == 3);
        // a checkpoint that was not finished is taken anew
        if done < 3 {
            let (id, _) = m.snap(manual("again"));
            assert_eq!(m.content(&m.store.tree(id)), live);
        }
    }
}

#[test]
fn files_from_before_the_epoch_do_not_differ() {
    for reflink in [true, false] {
        let mut m = filled(reflink);
        m.put("old", Node::File("x".to_string(), -5, 0o644));
        m.put("old-link", Node::Link("x".to_string(), -6));
        let (id, _) = m.snap(manual("base"));
        let d = m.diff(TreeRef::Id(id), TreeRef::Live);
        assert!(d.added.is_empty() && d.modified.is_empty() && d.removed.is_empty());
        m.delete("old");
        m.restore(id).unwrap();
        let d = m.diff(TreeRef::Id(id), TreeRef::Live);
        assert!(d.added.is_empty() && d.modified.is_empty() && d.removed.is_empty());
    }
}

#[test]
fn a_checkpoint_that_stops_within_a_clone_is_not_there() {
    let mut m = filled(false);
    let (id, _) = m.snap(manual("base"));
    let (live, saved) = (m.live(), m.content(&m.store.tree(id)));
    // a part of the clone is at the place where the next one is made
    let place = match snap(&m.store, 2, 77).into_iter().nth(1) {
        Some(SnapStep::Act(Action::Clone { dst, .. })) => dst,
        _ => panic!("a clone"),
    };
    m.disk.insert(place.parts.clone(), NEW_DIR);
    m.disk.insert(place.entry("README").parts, Node::File("hel".to_string(), 1, 0o600));
    assert!(!m.is_dir(&m.store.tree(2)));
    assert_eq!(m.live(), live);
    assert_eq!(m.content(&m.store.tree(id)), saved);
    let (next, _) = m.snap(manual("again"));
    assert_eq!(next, 2);
    assert_eq!(m.content(&m.store.tree(next)), live);
}

#[test]
fn files_that_are_not_cloned_in_one_piece_are_copied() {
    for reflink in [true, false] {
        let mut m = filled(reflink);
        m.put("src/sock", Node::Socket);
        m.write("src/more", "x");
        let (_, stats) = m.snap(manual("x"));
        // README, run.sh, src/main.rs and src/more
        assert_eq!(stats.copied, if reflink { 0 } else { 4 });
    }
    // one entry is cloned in one piece, the other is copied
    let mut work = clone_tree(&path("/a"), &path("/b"), vec![]);
    work.listed(vec![b"x".to_vec(), b"y".to_vec()]);
    clone_entry(&mut work, true);
    work.done();
    clone_entry(&mut work, false);
    fallback_walk(&mut work, EntryKind::File);
    work.done();
    work.done();
    assert!(work.next().is_none());
    assert_eq!((work.stats.entries, work.stats.copied), (2, 1));
}

#[test]
fn the_steps_of_a_checkpoint_come_in_order() {
    let m = filled(true);
    let steps = snap(&m.store, 1, 77);
    assert_eq!(steps.len(), 5);
    assert!(matches!(steps[0], SnapStep::Act(Action::Discard(_))));
    assert!(matches!(steps[1], SnapStep::Act(Action::Clone { .. })));
    assert!(matches!(steps[2], SnapStep::Act(Action::Rename { .. })));
    assert!(matches!(steps[3], SnapStep::Record));
    assert!(matches!(steps[4], SnapStep::Number));
}

#[test]
fn the_steps_of_a_restore_come_in_order() {
    let mut m = filled(true);
    let (id, _) = m.snap(manual("base"));
    let (target, steps) = restore(&m.journal, id, true).unwrap();
    assert_eq!(target.id, id);
    assert_eq!(steps.len(), 4);
    assert!(matches!(steps[0], RestoreStep::Checkpoint(_)));
    assert!(matches!(steps[1], RestoreStep::Stage));
    assert!(matches!(steps[2], RestoreStep::MoveOut));
    assert!(matches!(steps[3], RestoreStep::MoveIn));
}

#[test]
fn an_entry_is_counted_once_it_is_done() {
    let mut work = clone_tree(&path("/a"), &path("/b"), vec![b"skip".to_vec()]);
    work.listed(vec![b"file".to_vec(), b"skip".to_vec(), b"dir".to_vec(), b"sock".to_vec()]);
    let at = |work: &timefork::clone::Cloner| {
        let t = work.next().unwrap();
        (t.stage, t.src.display())
    };
    assert_eq!(at(&work), (Stage::Entry, "/a/file".to_string()));
    clone_entry(&mut work, true);
    assert_eq!(work.stats.entries, 0);
    assert_eq!(at(&work), (Stage::Count, "/a/file".to_string()));
    work.done();
    assert_eq!(work.stats.entries, 1);
    // the entries of a directory do not count, the directory does once it is filled
    assert_eq!(at(&work), (Stage::Entry, "/a/dir".to_string()));
    clone_entry(&mut work, false);
    fallback_walk(&mut work, EntryKind::Dir);
    work.listed(vec![b"x".to_vec()]);
    clone_entry(&mut work, false);
    fallback_walk(&mut work, EntryKind::File);
    assert_eq!(at(&work), (Stage::Copy, "/a/dir/x".to_string()));
    work.done();
    assert_eq!((work.stats.entries, work.stats.copied), (1, 1));
    assert_eq!(at(&work), (Stage::Seal, "/a/dir".to_string()));
    work.done();
    assert_eq!(work.stats.entries, 1);
    work.done();
    assert_eq!(work.stats.entries, 2);
    // what cannot be cloned does not count
    assert_eq!(at(&work), (Stage::Entry, "/a/sock".to_string()));
    clone_entry(&mut work, false);
    fallback_walk(&mut work, EntryKind::Other);
    assert!(work.next().is_none());
    assert_eq!(work.stats.entries, 2);
    assert_eq!(shown(&work.stats.skipped), vec!["/a/sock"]);
}

#[test]
fn a_restore_that_is_broken_off_while_moving_in_keeps_the_trash() {
    for done in 0..=5 {
        let mut m = filled(true);
        let (id, _) = m.snap(manual("base"));
        m.write("README", "later");
        let live = m.live();
        let swap = Swap::new(&m.store, id, 2, 5000, 77);
        for a in swap.stage(m.store.tree(id)) {
            m.perform(a);
        }
        for a in swap.move_out(&m.names(&swap.root)) {
            m.perform(a);
        }
        let moves = swap.move_in(&m.names(&swap.staging));
        assert_eq!(moves.len(), 5);
        for a in moves.into_iter().take(done) {
            m.perform(a);
        }
        assert_eq!(m.content(&swap.trash), live);
    }
}

#[test]
fn forks_are_made_until_a_place_is_taken() {
    let m = filled(true);
    let forks = fork(&m.store, TreeRef::Live, true).unwrap();
    let mut work = Forking::new(forks, 3, None);
    assert_eq!(work.next().unwrap().display(), "/home/repo-fork-live-1");
    let a = work.make(false).unwrap();
    assert!(matches!(a, Action::Clone { .. }));
    assert_eq!(work.next().unwrap().display(), "/home/repo-fork-live-2");
    let e = work.make(true).unwrap_err();
    assert!(matches!(e, Error::DestinationExists(_)));
    assert_eq!(shown(work.created()), vec!["/home/repo-fork-live-1"]);
    work.make(false).unwrap();
    work.make(false).unwrap();
    assert!(work.next().is_none());
    assert_eq!(work.created().len(), 3);
    let forks = fork(&m.store, TreeRef::Live, true).unwrap();
    assert!(Forking::new(forks, 0, None).next().is_none());
}
