//! Cloning a directory tree, step by step.
//!
//! Each entry is first cloned in one piece, as copy-on-write references. What
//! cannot be cloned so is looked into: a directory is made anew and its
//! entries are cloned one by one, a symlink is made anew, a file is copied,
//! and what is none of these is skipped and reported.
//!
//! A `Cloner` decides what comes next. Whoever holds it performs the step that
//! `next` asks for and tells the outcome with `listed`, `clone_entry`,
//! `fallback_walk` or `done`.

use crate::disk::EntryKind;
use crate::path::{copy_name, names, paths, same_name, FsPath, PathView};
use vstd::prelude::*;

verus! {

/// What a clone came to.
#[derive(Debug)]
pub struct CloneStats {
    /// Entries of the cloned directory itself that were cloned.
    pub entries: u64,
    /// Paths that were skipped, since they are sockets, fifos or devices.
    pub skipped: Vec<FsPath>,
    /// Files that were copied, since they could not be cloned.
    pub copied: u64,
}

/// What is to be done for one path.
#[derive(Debug, PartialEq, Eq, Structural, Clone, Copy)]
pub enum Stage {
    /// Make the destination and list the source, whose entries are the ones
    /// that count and can be left out.
    Root,
    /// Clone the source in one piece.
    Entry,
    /// Find out what kind of entry the source is.
    Inspect,
    /// Make the destination and list the source.
    Fill,
    /// Make the destination a symlink to where the source points.
    Link,
    /// Copy the file.
    Copy,
    /// Give the destination the permissions of the source.
    Seal,
    /// Count the source, an entry of the cloned directory itself: it was cloned.
    Count,
}

/// A step, with the path it reads and the path it makes.
#[derive(Debug)]
pub struct Task {
    pub stage: Stage,
    pub src: FsPath,
    pub dst: FsPath,
}

#[verifier::ext_equal]
pub struct TaskView {
    pub stage: Stage,
    pub src: PathView,
    pub dst: PathView,
}

impl View for Task {
    type V = TaskView;

    open spec fn view(&self) -> TaskView {
        TaskView { stage: self.stage, src: self.src@, dst: self.dst@ }
    }
}

impl TaskView {
    /// The same paths at another stage.
    pub open spec fn at(self, stage: Stage) -> TaskView {
        TaskView { stage, ..self }
    }

    /// The task of cloning the entry `name`.
    pub open spec fn of_entry(self, name: Seq<u8>) -> TaskView {
        TaskView { stage: Stage::Entry, src: self.src.child(name), dst: self.dst.child(name) }
    }

    /// The tasks of cloning the entries `listing`, the first of them last.
    pub open spec fn of_entries(self, listing: Seq<Seq<u8>>) -> Seq<TaskView> {
        Seq::new(listing.len(), |i: int| self.of_entry(listing[listing.len() - 1 - i]))
    }

    /// The tasks of cloning the entries `listing`, the first of them last, each with
    /// the task of counting it under it.
    pub open spec fn of_counted(self, listing: Seq<Seq<u8>>) -> Seq<TaskView>
        decreases listing.len(),
    {
        if listing.len() == 0 {
            Seq::empty()
        } else {
            let first = self.of_entry(listing[0]);
            self.of_counted(listing.skip(1)).push(first.at(Stage::Count)).push(first)
        }
    }
}

/// A clone under way.
#[derive(Debug)]
pub struct Cloner {
    /// Names of entries of the cloned directory itself that are left out.
    pub exclude: Vec<Vec<u8>>,
    /// What is left to do, the next step last.
    pub todo: Vec<Task>,
    /// What was done.
    pub stats: CloneStats,
}

#[verifier::ext_equal]
pub struct ClonerView {
    pub exclude: Seq<Seq<u8>>,
    pub todo: Seq<TaskView>,
    pub entries: nat,
    pub skipped: Seq<PathView>,
    pub copied: nat,
}

/// The views of a list of tasks.
pub open spec fn tasks(v: Seq<Task>) -> Seq<TaskView> {
    v.map_values(|t: Task| t@)
}

impl View for Cloner {
    type V = ClonerView;

    open spec fn view(&self) -> ClonerView {
        ClonerView {
            exclude: names(self.exclude@),
            todo: tasks(self.todo@),
            entries: self.stats.entries as nat,
            skipped: paths(self.stats.skipped@),
            copied: self.stats.copied as nat,
        }
    }
}

/// The tasks without the one of counting, where that is next.
pub open spec fn uncounted(todo: Seq<TaskView>) -> Seq<TaskView> {
    if todo.len() > 0 && todo.last().stage == Stage::Count {
        todo.drop_last()
    } else {
        todo
    }
}

impl ClonerView {
    /// The start of a clone.
    pub open spec fn start(src: PathView, dst: PathView, exclude: Seq<Seq<u8>>) -> ClonerView {
        ClonerView {
            exclude,
            todo: seq![TaskView { stage: Stage::Root, src, dst }],
            entries: 0,
            skipped: Seq::empty(),
            copied: 0,
        }
    }

    /// The next step; none when the clone is finished.
    pub open spec fn next(self) -> Option<TaskView> {
        if self.todo.len() > 0 {
            Some(self.todo.last())
        } else {
            None
        }
    }

    /// Whether the next step is at `stage`.
    pub open spec fn at(self, stage: Stage) -> bool {
        self.todo.len() > 0 && self.todo.last().stage == stage
    }

    /// The entries that are not left out.
    pub open spec fn kept(self, listing: Seq<Seq<u8>>) -> Seq<Seq<u8>> {
        listing.filter(|n: Seq<u8>| !self.exclude.contains(n))
    }

    /// The source of the next step holds the entries `listing`.
    pub open spec fn after_listed(self, listing: Seq<Seq<u8>>) -> ClonerView {
        let t = self.todo.last();
        if t.stage == Stage::Root {
            ClonerView {
                todo: self.todo.drop_last() + t.of_counted(self.kept(listing)),
                ..self
            }
        } else {
            ClonerView {
                todo: self.todo.drop_last().push(t.at(Stage::Seal)) + t.of_entries(listing),
                ..self
            }
        }
    }

    /// The source of the next step was cloned in one piece, or could not be.
    pub open spec fn after_entry(self, cloned: bool) -> ClonerView {
        if cloned {
            ClonerView { todo: self.todo.drop_last(), ..self }
        } else {
            ClonerView {
                todo: self.todo.drop_last().push(self.todo.last().at(Stage::Inspect)),
                ..self
            }
        }
    }

    /// The source of the next step is of this kind. What is skipped is not counted.
    pub open spec fn after_kind(self, kind: EntryKind) -> ClonerView {
        let t = self.todo.last();
        let rest = self.todo.drop_last();
        match kind {
            EntryKind::Dir => ClonerView {
                todo: rest.push(t.at(Stage::Fill)),
                ..self
            },
            EntryKind::Symlink => ClonerView {
                todo: rest.push(t.at(Stage::Link)),
                ..self
            },
            EntryKind::File => ClonerView {
                todo: rest.push(t.at(Stage::Copy)),
                ..self
            },
            EntryKind::Other => ClonerView {
                todo: uncounted(rest),
                skipped: self.skipped.push(t.src),
                ..self
            },
        }
    }

    /// The next step is done.
    pub open spec fn after_done(self) -> ClonerView {
        ClonerView {
            todo: self.todo.drop_last(),
            copied: if self.at(Stage::Copy) {
                self.copied + 1
            } else {
                self.copied
            },
            entries: if self.at(Stage::Count) {
                self.entries + 1
            } else {
                self.entries
            },
            ..self
        }
    }
}

/// The task that lists the directory `src`.
spec fn parent_task(src: PathView, dst: PathView) -> TaskView {
    TaskView { stage: Stage::Fill, src, dst }
}

/// Whether `name` is one of `exclude`.
fn is_excluded(name: &Vec<u8>, exclude: &Vec<Vec<u8>>) -> (r: bool)
    ensures
        r == names(exclude@).contains(name@),
{
    let mut i: usize = 0;
    while i < exclude.len()
        invariant
            i <= exclude@.len(),
            forall|k: int| 0 <= k < i ==> names(exclude@)[k] != name@,
        decreases exclude@.len() - i,
    {
        if same_name(&exclude[i], name) {
            assert(names(exclude@)[i as int] == name@);
            return true;
        }
        i += 1;
    }
    false
}

/// Starts to clone the entries of `src` into `dst`, but for those named in
/// `exclude`.
pub fn clone_tree(src: &FsPath, dst: &FsPath, exclude: Vec<Vec<u8>>) -> (r: Cloner)
    ensures
        r@ == ClonerView::start(src@, dst@, names(exclude@)),
{
    let mut todo: Vec<Task> = Vec::new();
    todo.push(Task { stage: Stage::Root, src: src.clone(), dst: dst.clone() });
    let r = Cloner {
        exclude,
        todo,
        stats: CloneStats { entries: 0, skipped: Vec::new(), copied: 0 },
    };
    assert(r@ =~= ClonerView::start(src@, dst@, names(exclude@)));
    r
}

/// The source of the next step was cloned in one piece, or could not be: then
/// it has to be looked into.
pub fn clone_entry(work: &mut Cloner, cloned: bool)
    requires
        old(work)@.at(Stage::Entry),
    ensures
        final(work)@ == old(work)@.after_entry(cloned),
        final(work)@.entries == old(work)@.entries,
{
    match work.todo.pop() {
        Some(mut t) => {
            if !cloned {
                t.stage = Stage::Inspect;
                work.todo.push(t);
            }
        },
        None => {},
    }
    assert(work@ =~= old(work)@.after_entry(cloned));
}

/// The source of the next step is of the kind `kind`, which says how to go on
/// with it.
pub fn fallback_walk(work: &mut Cloner, kind: EntryKind)
    requires
        old(work)@.at(Stage::Inspect),
    ensures
        final(work)@ == old(work)@.after_kind(kind),
        final(work)@.entries == old(work)@.entries,
{
    match work.todo.pop() {
        Some(mut t) => {
            match kind {
                EntryKind::Dir => {
                    t.stage = Stage::Fill;
                    work.todo.push(t);
                },
                EntryKind::Symlink => {
                    t.stage = Stage::Link;
                    work.todo.push(t);
                },
                EntryKind::File => {
                    t.stage = Stage::Copy;
                    work.todo.push(t);
                },
                EntryKind::Other => {
                    work.stats.skipped.push(t.src);
                    let n: usize = work.todo.len();
                    if n > 0 && work.todo[n - 1].stage == Stage::Count {
                        work.todo.pop();
                    }
                },
            }
        },
        None => {},
    }
    assert(work@ =~= old(work)@.after_kind(kind));
}

impl Cloner {
    /// The next step; none when the clone is finished.
    pub fn next(&self) -> (r: Option<&Task>)
        ensures
            match r {
                Some(t) => self@.next() == Some(t@),
                None => self@.next() is None,
            },
    {
        if self.todo.len() == 0 {
            None
        } else {
            Some(&self.todo[self.todo.len() - 1])
        }
    }

    /// The source of the next step is a directory, whose destination was made;
    /// it holds the entries `listing`.
    pub fn listed(&mut self, listing: Vec<Vec<u8>>)
        requires
            old(self)@.at(Stage::Root) || old(self)@.at(Stage::Fill),
        ensures
            final(self)@ == old(self)@.after_listed(names(listing@)),
    {
        let ghost before = self@;
        match self.todo.pop() {
            Some(t) => {
                assert(tasks(self.todo@) =~= before.todo.drop_last());
                if t.stage == Stage::Root {
                    let kept = self.keep(&listing);
                    self.push_counted(&t.src, &t.dst, &kept);
                } else {
                    let (src, dst) = (t.src.clone(), t.dst.clone());
                    self.todo.push(Task { stage: Stage::Seal, src: t.src, dst: t.dst });
                    assert(tasks(self.todo@) =~= before.todo.drop_last().push(
                        before.todo.last().at(Stage::Seal),
                    ));
                    self.push_entries(&src, &dst, &listing);
                }
            },
            None => {},
        }
        assert(self@ =~= before.after_listed(names(listing@)));
    }

    /// The next step, which leaves nothing to decide, is done.
    pub fn done(&mut self)
        requires
            old(self)@.at(Stage::Link) || old(self)@.at(Stage::Copy) || old(self)@.at(Stage::Seal)
                || old(self)@.at(Stage::Count),
            old(self)@.at(Stage::Copy) ==> old(self)@.copied < u64::MAX,
            old(self)@.at(Stage::Count) ==> old(self)@.entries < u64::MAX,
        ensures
            final(self)@ == old(self)@.after_done(),
    {
        match self.todo.pop() {
            Some(t) => {
                if t.stage == Stage::Copy {
                    self.stats.copied += 1;
                }
                if t.stage == Stage::Count {
                    self.stats.entries += 1;
                }
            },
            None => {},
        }
        assert(self@ =~= old(self)@.after_done());
    }

    /// The entries that are not left out.
    fn keep(&self, listing: &Vec<Vec<u8>>) -> (r: Vec<Vec<u8>>)
        ensures
            names(r@) == self@.kept(names(listing@)),
            r@.len() <= listing@.len(),
    {
        let ghost all = names(listing@);
        let ghost p = |n: Seq<u8>| !self@.exclude.contains(n);
        let mut r: Vec<Vec<u8>> = Vec::new();
        let mut i: usize = 0;
        assert(all.take(0).filter(p) =~= Seq::empty()) by {
            reveal_with_fuel(Seq::<_>::filter, 1);
        }
        while i < listing.len()
            invariant
                i <= listing@.len(),
                r@.len() <= i,
                all == names(listing@),
                p == (|n: Seq<u8>| !self@.exclude.contains(n)),
                names(r@) =~= all.take(i as int).filter(p),
            decreases listing@.len() - i,
        {
            let ghost before = names(r@);
            assert(all.take(i + 1) =~= all.take(i as int).push(all[i as int]));
            proof {
                all.take(i as int).lemma_filter_push(all[i as int], p);
            }
            if !is_excluded(&listing[i], &self.exclude) {
                let name = copy_name(&listing[i]);
                r.push(name);
                assert(names(r@) =~= before.push(name@));
            }
            i += 1;
        }
        assert(all.take(i as int) =~= all);
        r
    }

    /// Adds the tasks of cloning the entries `listing`.
    fn push_entries(&mut self, src: &FsPath, dst: &FsPath, listing: &Vec<Vec<u8>>)
        ensures
            final(self)@ == (ClonerView {
                todo: old(self)@.todo + parent_task(src@, dst@).of_entries(names(listing@)),
                ..old(self)@
            }),
    {
        let ghost t = parent_task(src@, dst@);
        let ghost all = names(listing@);
        let ghost before = self@;
        let mut i: usize = listing.len();
        assert(before.todo + t.of_entries(all).take(0) =~= before.todo);
        while i > 0
            invariant
                i <= listing@.len(),
                all == names(listing@),
                t == parent_task(src@, dst@),
                self@ == (ClonerView {
                    todo: before.todo + t.of_entries(all).take(all.len() - i),
                    ..before
                }),
            decreases i,
        {
            i -= 1;
            let ghost done = self@.todo;
            let task = Task {
                stage: Stage::Entry,
                src: src.child(copy_name(&listing[i])),
                dst: dst.child(copy_name(&listing[i])),
            };
            self.todo.push(task);
            proof {
                assert(tasks(self.todo@) =~= done.push(task@));
                assert(task@ == t.of_entry(all[i as int]));
                assert(before.todo + t.of_entries(all).take(all.len() - i) =~= done.push(task@));
                assert(self@ =~= (ClonerView {
                    todo: before.todo + t.of_entries(all).take(all.len() - i),
                    ..before
                }));
            }
        }
        assert(t.of_entries(all).take(all.len() as int) =~= t.of_entries(all));
    }

    /// Adds the tasks of cloning and counting the entries `listing`.
    fn push_counted(&mut self, src: &FsPath, dst: &FsPath, listing: &Vec<Vec<u8>>)
        ensures
            final(self)@ == (ClonerView {
                todo: old(self)@.todo + parent_task(src@, dst@).at(Stage::Root).of_counted(
                    names(listing@),
                ),
                ..old(self)@
            }),
    {
        let ghost t = parent_task(src@, dst@).at(Stage::Root);
        let ghost all = names(listing@);
        let ghost before = self@;
        let mut i: usize = listing.len();
        assert(all.skip(i as int) =~= Seq::empty());
        assert(before.todo + t.of_counted(all.skip(i as int)) =~= before.todo);
        while i > 0
            invariant
                i <= listing@.len(),
                all == names(listing@),
                t == parent_task(src@, dst@).at(Stage::Root),
                self@ == (ClonerView {
                    todo: before.todo + t.of_counted(all.skip(i as int)),
                    ..before
                }),
            decreases i,
        {
            let ghost done = self@.todo;
            let ghost later = all.skip(i as int);
            i -= 1;
            let count = Task {
                stage: Stage::Count,
                src: src.child(copy_name(&listing[i])),
                dst: dst.child(copy_name(&listing[i])),
            };
            let entry = Task {
                stage: Stage::Entry,
                src: src.child(copy_name(&listing[i])),
                dst: dst.child(copy_name(&listing[i])),
            };
            self.todo.push(count);
            self.todo.push(entry);
            proof {
                let now = all.skip(i as int);
                assert(now.skip(1) =~= later);
                assert(now[0] == all[i as int]);
                assert(entry@ == t.of_entry(now[0]));
                assert(count@ == t.of_entry(now[0]).at(Stage::Count));
                assert(tasks(self.todo@) =~= done.push(count@).push(entry@));
                assert(before.todo + t.of_counted(now) =~= done.push(count@).push(entry@));
                assert(self@ =~= (ClonerView { todo: before.todo + t.of_counted(now), ..before }));
            }
        }
        assert(all.skip(0) =~= all);
    }
}

/// A clone starts with the directory itself, and nothing is done yet.
pub proof fn clone_starts_with_the_directory(
    src: PathView,
    dst: PathView,
    exclude: Seq<Seq<u8>>,
)
    ensures
        ({
            let work = ClonerView::start(src, dst, exclude);
            &&& work.next() == Some(TaskView { stage: Stage::Root, src, dst })
            &&& work.todo.len() == 1
            &&& work.exclude == exclude
            &&& work.entries == 0 && work.copied == 0 && work.skipped.len() == 0
        }),
{
}

/// The next step is the last of those that are left, and there is one as long as any is
/// left.
pub proof fn next_step_is_the_last_left(work: ClonerView, t: TaskView, stage: Stage)
    ensures
        work.next() == Some(t) <==> work.todo.len() > 0 && work.todo[work.todo.len() - 1] == t,
        work.next() is None <==> work.todo.len() == 0,
        work.at(stage) <==> work.next() is Some && work.next()->0.stage == stage,
{
}

/// Of the entries of the cloned directory itself those are left out whose names are
/// excluded, and no others.
pub proof fn excluded_entries_are_left_out(
    work: ClonerView,
    listing: Seq<Seq<u8>>,
    name: Seq<u8>,
)
    ensures
        work.kept(Seq::empty()).len() == 0,
        work.exclude.contains(name) ==> work.kept(listing.push(name)) == work.kept(listing),
        !work.exclude.contains(name) ==> work.kept(listing.push(name)) == work.kept(listing).push(
            name,
        ),
        work.exclude.len() == 0 ==> work.kept(listing) == listing,
    decreases listing.len(),
{
    let p = |n: Seq<u8>| !work.exclude.contains(n);
    assert(Seq::<Seq<u8>>::empty().filter(p) =~= Seq::empty()) by {
        reveal_with_fuel(Seq::<_>::filter, 1);
    }
    listing.lemma_filter_push(name, p);
    if listing.len() > 0 {
        excluded_entries_are_left_out(work, listing.drop_last(), listing.last());
        assert(listing.drop_last().push(listing.last()) =~= listing);
    }
}

proof fn lemma_counted(t: TaskView, listing: Seq<Seq<u8>>, i: int)
    requires
        0 <= i < listing.len(),
    ensures
        t.of_counted(listing).len() == 2 * listing.len(),
        t.of_counted(listing)[2 * (listing.len() - i) - 1] == t.of_entry(listing[i]),
        t.of_counted(listing)[2 * (listing.len() - i) - 2] == t.of_entry(listing[i]).at(
            Stage::Count,
        ),
    decreases listing.len(),
{
    let rest = listing.skip(1);
    if rest.len() > 0 {
        if i > 0 {
            lemma_counted(t, rest, i - 1);
            assert(rest[i - 1] == listing[i]);
        } else {
            lemma_counted(t, rest, 0);
        }
    } else {
        assert(t.of_counted(rest).len() == 0);
    }
}

/// Once the cloned directory itself is listed, its entries are cloned in the order of the
/// listing, each into the entry of that name, and each is counted right after.
pub proof fn entries_are_cloned_and_counted_in_order(
    work: ClonerView,
    listing: Seq<Seq<u8>>,
    rest: int,
    i: int,
)
    requires
        work.at(Stage::Root),
        rest == work.todo.len() - 1,
        0 <= i < work.kept(listing).len(),
    ensures
        ({
            let t = work.todo.last();
            let kept = work.kept(listing);
            let todo = work.after_listed(listing).todo;
            let k = rest + 2 * (kept.len() - i);
            &&& todo.len() == rest + 2 * kept.len()
            &&& todo.take(rest) == work.todo.take(rest)
            &&& todo[k - 1] == (TaskView {
                stage: Stage::Entry,
                src: t.src.child(kept[i]),
                dst: t.dst.child(kept[i]),
            })
            &&& todo[k - 2] == (TaskView {
                stage: Stage::Count,
                src: t.src.child(kept[i]),
                dst: t.dst.child(kept[i]),
            })
        }),
{
    lemma_counted(work.todo.last(), work.kept(listing), i);
    assert(work.after_listed(listing).todo.take(rest) =~= work.todo.take(rest));
}

/// Once a directory below is listed, all its entries are cloned in the order of the
/// listing, each into the entry of that name, and after them the directory gets its
/// permissions.
pub proof fn directory_is_filled_before_it_is_sealed(
    work: ClonerView,
    listing: Seq<Seq<u8>>,
    rest: int,
)
    requires
        work.at(Stage::Fill),
        rest == work.todo.len() - 1,
    ensures
        ({
            let t = work.todo.last();
            let n = listing.len();
            let todo = work.after_listed(listing).todo;
            &&& todo.len() == rest + 1 + n
            &&& todo.take(rest) == work.todo.take(rest)
            &&& todo[rest] == (TaskView { stage: Stage::Seal, src: t.src, dst: t.dst })
            &&& forall|i: int|
                0 <= i < n ==> #[trigger] todo[rest + n - i] == (TaskView {
                    stage: Stage::Entry,
                    src: t.src.child(listing[i]),
                    dst: t.dst.child(listing[i]),
                })
        }),
{
    assert(work.after_listed(listing).todo.take(rest) =~= work.todo.take(rest));
}

/// Listing a directory changes nothing but what is left to do.
pub proof fn listing_only_adds_steps(work: ClonerView, listing: Seq<Seq<u8>>)
    ensures
        work.after_listed(listing).exclude == work.exclude,
        work.after_listed(listing).entries == work.entries,
        work.after_listed(listing).skipped == work.skipped,
        work.after_listed(listing).copied == work.copied,
        work.at(Stage::Root) && work.kept(listing).len() == 0 ==> work.after_listed(listing).todo
            == work.todo.take(work.todo.len() - 1),
{
    if work.kept(listing).len() == 0 {
        let t = work.todo.last();
        assert(t.of_counted(work.kept(listing)).len() == 0);
    }
}

/// What was cloned in one piece is done with; what could not be is looked into, and
/// nothing else changes.
pub proof fn what_is_not_cloned_is_looked_into(work: ClonerView)
    requires
        work.at(Stage::Entry),
    ensures
        ({
            let n = work.todo.len() - 1;
            let t = work.todo[n];
            let next = work.after_entry(false);
            &&& work.after_entry(true) == (ClonerView { todo: work.todo.take(n), ..work })
            &&& next.todo.take(n) == work.todo.take(n) && next.todo.len() == n + 1
            &&& next.next() == Some(TaskView { stage: Stage::Inspect, src: t.src, dst: t.dst })
            &&& next.exclude == work.exclude && next.entries == work.entries && next.skipped
                == work.skipped && next.copied == work.copied
        }),
{
    let n = work.todo.len() - 1;
    assert(work.after_entry(true).todo =~= work.todo.take(n));
    assert(work.after_entry(false).todo.take(n) =~= work.todo.take(n));
}

/// The kind of an entry decides what is done with it: a directory is made and filled, a
/// symlink is made anew and a file is copied, all from where it is to where it goes.
pub proof fn kind_decides_what_is_done(work: ClonerView, kind: EntryKind, stage: Stage)
    requires
        work.at(Stage::Inspect),
        kind == EntryKind::Dir && stage == Stage::Fill || kind == EntryKind::Symlink && stage
            == Stage::Link || kind == EntryKind::File && stage == Stage::Copy,
    ensures
        ({
            let n = work.todo.len() - 1;
            let t = work.todo[n];
            let next = work.after_kind(kind);
            &&& next.todo.len() == n + 1 && next.todo.take(n) == work.todo.take(n)
            &&& next.next() == Some(TaskView { stage, src: t.src, dst: t.dst })
            &&& next.exclude == work.exclude && next.entries == work.entries && next.skipped
                == work.skipped && next.copied == work.copied
        }),
{
    let n = work.todo.len() - 1;
    assert(work.after_kind(kind).todo.take(n) =~= work.todo.take(n));
}

/// What is neither a directory nor a symlink nor a file is reported as skipped, and not
/// counted: the step that would count it goes with it.
pub proof fn other_kinds_are_skipped(work: ClonerView)
    requires
        work.at(Stage::Inspect),
    ensures
        ({
            let n = work.todo.len() - 1;
            let next = work.after_kind(EntryKind::Other);
            &&& next.skipped == work.skipped.push(work.todo[n].src)
            &&& next.exclude == work.exclude && next.entries == work.entries && next.copied
                == work.copied
            &&& n > 0 && work.todo[n - 1].stage == Stage::Count ==> next.todo == work.todo.take(
                n - 1,
            )
            &&& n == 0 || work.todo[n - 1].stage != Stage::Count ==> next.todo == work.todo.take(n)
        }),
{
    let n = work.todo.len() - 1;
    if n > 0 && work.todo[n - 1].stage == Stage::Count {
        assert(work.after_kind(EntryKind::Other).todo =~= work.todo.take(n - 1));
    } else {
        assert(work.after_kind(EntryKind::Other).todo =~= work.todo.take(n));
    }
}

/// A step that is done is left to do no more. A copied file counts as copied, a counted
/// entry as an entry, and nothing else changes.
pub proof fn done_steps_are_counted(work: ClonerView)
    requires
        work.todo.len() > 0,
    ensures
        ({
            let n = work.todo.len() - 1;
            let next = work.after_done();
            &&& next.todo == work.todo.take(n)
            &&& next.exclude == work.exclude && next.skipped == work.skipped
            &&& work.todo[n].stage == Stage::Copy ==> next.copied == work.copied + 1
            &&& work.todo[n].stage != Stage::Copy ==> next.copied == work.copied
            &&& work.todo[n].stage == Stage::Count ==> next.entries == work.entries + 1
            &&& work.todo[n].stage != Stage::Count ==> next.entries == work.entries
        }),
{
    assert(work.after_done().todo =~= work.todo.take(work.todo.len() - 1));
}

} // verus!
