//! Checkpoints, restores and forks, worked out as lists of actions.

use crate::action::{actions, Action, ActionView};
use crate::clone::CloneStats;
use crate::error::{Error, ErrorView};
use crate::number::{decimal, push_decimal};
use crate::path::{copy_name, names, paths, same_name, FsPath, PathView};
use crate::store::{first_with, ids, store_name, Snap, SnapView, Store, StoreView, STORE_DIR};
use crate::text::{opt_text, same_text, trim, trimmed};
use vstd::prelude::*;

verus! {

/// What is said of a checkpoint when it is taken.
#[derive(Debug)]
pub struct SnapMeta {
    pub origin: String,
    pub label: String,
    pub tool: Option<String>,
    pub session: Option<String>,
}

#[verifier::ext_equal]
pub struct MetaView {
    pub origin: Seq<char>,
    pub label: Seq<char>,
    pub tool: Option<Seq<char>>,
    pub session: Option<Seq<char>>,
}

impl View for SnapMeta {
    type V = MetaView;

    open spec fn view(&self) -> MetaView {
        MetaView {
            origin: self.origin@,
            label: self.label@,
            tool: opt_text(self.tool),
            session: opt_text(self.session),
        }
    }
}

impl MetaView {
    /// A checkpoint that no tool and no session is behind.
    pub open spec fn plain(origin: Seq<char>, label: Seq<char>) -> MetaView {
        MetaView { origin, label, tool: None, session: None }
    }

    /// The first checkpoint of a workspace.
    pub open spec fn baseline() -> MetaView {
        MetaView::plain("baseline"@, "baseline (timefork init)"@)
    }

    /// The checkpoint before a restore.
    pub open spec fn pre_restore(id: u64) -> MetaView {
        MetaView::plain(
            "pre-restore"@,
            "live state before restore to #"@ + decimal(id as nat),
        )
    }

    /// What the journal records of the checkpoint.
    pub open spec fn recorded(
        self,
        id: u64,
        ts: u64,
        git_head: Option<Seq<char>>,
        entries: u64,
        took_ms: u64,
    ) -> SnapView {
        SnapView {
            id,
            ts,
            origin: self.origin,
            label: self.label,
            tool: self.tool,
            session: self.session,
            git_head,
            entries: Some(entries),
            took_ms: Some(took_ms),
        }
    }
}

impl SnapMeta {
    fn plain(origin: &str, label: String) -> (r: SnapMeta)
        ensures
            r@ == MetaView::plain(origin@, label@),
            r.origin@ == origin@,
            r.label@ == label@,
            r.tool is None,
            r.session is None,
    {
        SnapMeta { origin: origin.to_owned(), label, tool: None, session: None }
    }

    /// The first checkpoint of a workspace.
    pub fn baseline() -> (r: SnapMeta)
        ensures
            r@ == MetaView::baseline(),
            r.origin@ == "baseline"@,
            r.label@ == "baseline (timefork init)"@,
            r.tool is None,
            r.session is None,
    {
        SnapMeta::plain("baseline", "baseline (timefork init)".to_owned())
    }

    /// A checkpoint that was asked for.
    pub fn manual(message: String) -> (r: SnapMeta)
        ensures
            r@ == MetaView::plain("manual"@, message@),
            r.origin@ == "manual"@,
            r.label@ == message@,
            r.tool is None,
            r.session is None,
    {
        SnapMeta::plain("manual", message)
    }

    /// The checkpoint before a restore to `id`.
    pub fn pre_restore(id: u64) -> (r: SnapMeta)
        ensures
            r@ == MetaView::pre_restore(id),
            r.origin@ == "pre-restore"@,
            r.label@ == "live state before restore to #"@ + decimal(id as nat),
            r.tool is None,
            r.session is None,
    {
        let mut label = "live state before restore to #".to_owned();
        push_decimal(&mut label, id);
        SnapMeta::plain("pre-restore", label)
    }

    /// What the journal records of the checkpoint `id`.
    pub fn record(
        self,
        id: u64,
        ts: u64,
        git_head: Option<String>,
        entries: u64,
        took_ms: u64,
    ) -> (r: Snap)
        ensures
            r@ == self@.recorded(id, ts, opt_text(git_head), entries, took_ms),
            r.id == id,
            r.ts == ts,
            r.origin@ == self.origin@,
            r.label@ == self.label@,
            r.tool == self.tool,
            r.session == self.session,
            r.git_head == git_head,
            r.entries == Some(entries),
            r.took_ms == Some(took_ms),
    {
        Snap {
            id,
            ts,
            origin: self.origin,
            label: self.label,
            tool: self.tool,
            session: self.session,
            git_head,
            entries: Some(entries),
            took_ms: Some(took_ms),
        }
    }
}

/// `{what}-{id}-{pid}`.
pub open spec fn staging_name(what: Seq<char>, id: u64, pid: u32) -> Seq<char> {
    what + "-"@ + decimal(id as nat) + "-"@ + decimal(pid as nat)
}

impl StoreView {
    /// Where the process `pid` makes the tree of the checkpoint `id`.
    pub open spec fn snap_staging(self, id: u64, pid: u32) -> PathView {
        self.tmp_dir().entry(staging_name("snap"@, id, pid))
    }

    /// Where the process `pid` makes the workspace of the checkpoint `id`.
    pub open spec fn restore_staging(self, id: u64, pid: u32) -> PathView {
        self.tmp_dir().entry(staging_name("restore"@, id, pid))
    }

    /// Where a restore at the time `now` puts what it displaces, which is the
    /// checkpoint `pre`.
    pub open spec fn trash(self, now: u64, pre: u64) -> PathView {
        self.trash_dir().entry(decimal(now as nat) + "-pre"@ + decimal(pre as nat))
    }
}

fn staging(dir: FsPath, what: &str, id: u64, pid: u32) -> (r: FsPath)
    ensures
        r@ == dir@.entry(staging_name(what@, id, pid)),
{
    let mut name = what.to_owned();
    name.append("-");
    push_decimal(&mut name, id);
    name.append("-");
    push_decimal(&mut name, pid as u64);
    assert(name@ =~= staging_name(what@, id, pid));
    dir.entry(name.as_str())
}

/// The name of the store alone.
fn only_store() -> (r: Vec<Vec<u8>>)
    ensures
        names(r@) == seq![store_name()],
{
    let mut r: Vec<Vec<u8>> = Vec::new();
    r.push(STORE_DIR.as_bytes_vec());
    assert(names(r@) =~= seq![store_name()]);
    r
}

/// Takes the checkpoint `id`: the workspace, but for the store, is cloned to a
/// place in the store, and moved where the tree of the checkpoint is to be.
pub open spec fn snap_actions(store: StoreView, id: u64, pid: u32) -> Seq<ActionView> {
    let staging = store.snap_staging(id, pid);
    seq![
        ActionView::Discard(staging),
        ActionView::Clone { src: store.root, dst: staging, exclude: seq![store_name()] },
        ActionView::Rename { from: staging, to: store.tree(id) },
    ]
}

/// A step of taking a checkpoint.
#[derive(Debug)]
pub enum SnapStep {
    Act(Action),
    /// Append the record of the checkpoint to the journal.
    Record,
    /// Write down the number of the checkpoint after this one.
    Number,
}

pub enum SnapStepView {
    Act(ActionView),
    Record,
    Number,
}

impl View for SnapStep {
    type V = SnapStepView;

    open spec fn view(&self) -> SnapStepView {
        match *self {
            SnapStep::Act(a) => SnapStepView::Act(a@),
            SnapStep::Record => SnapStepView::Record,
            SnapStep::Number => SnapStepView::Number,
        }
    }
}

/// The steps of taking the checkpoint `id`, in order: its tree is in place before the
/// journal records it, and the number is taken last.
pub open spec fn snap_steps(store: StoreView, id: u64, pid: u32) -> Seq<SnapStepView> {
    snap_actions(store, id, pid).map_values(|a: ActionView| SnapStepView::Act(a)) + seq![
        SnapStepView::Record,
        SnapStepView::Number,
    ]
}

/// Takes the checkpoint `id` in the process `pid`: the steps, in order.
pub fn snap(store: &Store, id: u64, pid: u32) -> (r: Vec<SnapStep>)
    ensures
        r@.map_values(|s: SnapStep| s@) == snap_steps(store@, id, pid),
{
    let place = staging(store.tmp_dir(), "snap", id, pid);
    let mut r: Vec<SnapStep> = Vec::new();
    r.push(SnapStep::Act(Action::Discard(place.clone())));
    r.push(
        SnapStep::Act(
            Action::Clone { src: store.root.clone(), dst: place.clone(), exclude: only_store() },
        ),
    );
    r.push(SnapStep::Act(Action::Rename { from: place, to: store.tree(id) }));
    r.push(SnapStep::Record);
    r.push(SnapStep::Number);
    assert(r@.map_values(|s: SnapStep| s@) =~= snap_steps(store@, id, pid));
    r
}

/// What is said of the entries that a clone skipped.
pub open spec fn skip_report(skipped: Seq<PathView>) -> Option<Seq<char>> {
    if skipped.len() > 0 {
        Some(
            "timefork: skipped "@ + decimal(skipped.len())
                + " uncloneable item(s) (sockets/fifos), e.g. "@ + skipped[0].shown(),
        )
    } else {
        None
    }
}

/// What is said of the entries that a clone skipped; nothing where it skipped
/// none.
pub fn report_clone_stats(stats: &CloneStats) -> (r: Option<String>)
    ensures
        opt_text(r) == skip_report(paths(stats.skipped@)),
{
    if stats.skipped.len() == 0 {
        return None;
    }
    let n: usize = stats.skipped.len();
    let first = stats.skipped[0].display();
    let mut r = "timefork: skipped ".to_owned();
    push_decimal(&mut r, n as u64);
    r.append(" uncloneable item(s) (sockets/fifos), e.g. ");
    r.append(first.as_str());
    assert(paths(stats.skipped@)[0] == stats.skipped@[0]@);
    Some(r)
}

/// A step of a restore.
#[derive(Debug)]
pub enum RestoreStep {
    /// Take a checkpoint of the workspace, of which this is said.
    Checkpoint(SnapMeta),
    /// Make the workspace of the checkpoint in the store: `Swap::stage`.
    Stage,
    /// Move out what is in the workspace: `Swap::move_out`.
    MoveOut,
    /// Move in what was made: `Swap::move_in`.
    MoveIn,
}

pub enum RestoreStepView {
    Checkpoint(MetaView),
    Stage,
    MoveOut,
    MoveIn,
}

impl View for RestoreStep {
    type V = RestoreStepView;

    open spec fn view(&self) -> RestoreStepView {
        match *self {
            RestoreStep::Checkpoint(m) => RestoreStepView::Checkpoint(m@),
            RestoreStep::Stage => RestoreStepView::Stage,
            RestoreStep::MoveOut => RestoreStepView::MoveOut,
            RestoreStep::MoveIn => RestoreStepView::MoveIn,
        }
    }
}

/// The steps of a restore to the checkpoint `id`, in order: the workspace is in a
/// checkpoint, and what is to replace it is made, before anything in it is moved.
pub open spec fn restore_steps(id: u64) -> Seq<RestoreStepView> {
    seq![
        RestoreStepView::Checkpoint(MetaView::pre_restore(id)),
        RestoreStepView::Stage,
        RestoreStepView::MoveOut,
        RestoreStepView::MoveIn,
    ]
}

/// Restores a workspace to the checkpoint `id`: it must be in the journal, and
/// `has_tree` must say that its tree is there. Gives the checkpoint, and the steps
/// in order.
pub fn restore<'a>(snaps: &'a Vec<Snap>, id: u64, has_tree: bool) -> (r: Result<
    (&'a Snap, Vec<RestoreStep>),
    Error,
>)
    ensures
        match r {
            Ok((target, steps)) => {
                &&& has_tree
                &&& exists|i: int| #[trigger] first_with(snaps@, id, i) && *target == snaps@[i]
                &&& steps@.map_values(|s: RestoreStep| s@) == restore_steps(id)
            },
            Err(e) => if ids(snaps@).contains(id) {
                !has_tree && e@ == ErrorView::Pruned(id)
            } else {
                e@ == ErrorView::NoCheckpoint(id)
            },
        },
{
    match Store::find_snap(snaps, id) {
        Err(e) => Err(e),
        Ok(target) => {
            assert(ids(snaps@).contains(id)) by {
                let i = choose|i: int| #[trigger] first_with(snaps@, id, i) && *target == snaps@[i];
                assert(ids(snaps@)[i] == id);
            }
            if has_tree {
                let mut steps: Vec<RestoreStep> = Vec::new();
                steps.push(RestoreStep::Checkpoint(SnapMeta::pre_restore(id)));
                steps.push(RestoreStep::Stage);
                steps.push(RestoreStep::MoveOut);
                steps.push(RestoreStep::MoveIn);
                assert(steps@.map_values(|s: RestoreStep| s@) =~= restore_steps(id));
                Ok((target, steps))
            } else {
                Err(Error::Pruned(id))
            }
        },
    }
}

/// The paths that a restore works with.
#[derive(Debug)]
pub struct Swap {
    pub root: FsPath,
    /// Where the workspace of the checkpoint is made.
    pub staging: FsPath,
    /// Where what is displaced goes.
    pub trash: FsPath,
}

#[verifier::ext_equal]
pub struct SwapView {
    pub root: PathView,
    pub staging: PathView,
    pub trash: PathView,
}

impl View for Swap {
    type V = SwapView;

    open spec fn view(&self) -> SwapView {
        SwapView { root: self.root@, staging: self.staging@, trash: self.trash@ }
    }
}

/// Moves the entries `listing` from one directory to another.
pub open spec fn move_actions(from: PathView, to: PathView, listing: Seq<Seq<u8>>) -> Seq<
    ActionView,
> {
    listing.map_values(
        |n: Seq<u8>| ActionView::Rename { from: from.child(n), to: to.child(n) },
    )
}

impl SwapView {
    /// A restore of the checkpoint `id` in the process `pid`, at the time `now`,
    /// after the checkpoint `pre` was taken.
    pub open spec fn of(store: StoreView, id: u64, pre: u64, now: u64, pid: u32) -> SwapView {
        SwapView {
            root: store.root,
            staging: store.restore_staging(id, pid),
            trash: store.trash(now, pre),
        }
    }

    /// Makes the workspace of the checkpoint whose tree is at `tree`.
    pub open spec fn stage(self, tree: PathView) -> Seq<ActionView> {
        seq![
            ActionView::Discard(self.staging),
            ActionView::Clone { src: tree, dst: self.staging, exclude: Seq::empty() },
            ActionView::MakeDir(self.trash),
        ]
    }

    /// Moves out what is in the workspace, but for the store; `live` are its
    /// entries.
    pub open spec fn move_out(self, live: Seq<Seq<u8>>) -> Seq<ActionView> {
        move_actions(self.root, self.trash, live.filter(|n: Seq<u8>| n != store_name()))
    }

    /// Moves in the workspace that was made; `staged` are its entries.
    pub open spec fn move_in(self, staged: Seq<Seq<u8>>) -> Seq<ActionView> {
        move_actions(self.staging, self.root, staged).push(ActionView::DropDir(self.staging))
    }
}

spec fn name_view(n: Option<&Vec<u8>>) -> Option<Seq<u8>> {
    match n {
        Some(x) => Some(x@),
        None => None,
    }
}

spec fn other_than(but: Option<Seq<u8>>) -> spec_fn(Seq<u8>) -> bool {
    |n: Seq<u8>| but != Some(n)
}

/// Moves the entries `listing`, but for those with the name `but`, from one
/// directory to another.
fn moves(from: &FsPath, to: &FsPath, listing: &Vec<Vec<u8>>, but: Option<&Vec<u8>>) -> (r: Vec<
    Action,
>)
    ensures
        actions(r@) == move_actions(
            from@,
            to@,
            names(listing@).filter(other_than(name_view(but))),
        ),
{
    let ghost all = names(listing@);
    let ghost p = other_than(name_view(but));
    let mut r: Vec<Action> = Vec::new();
    let mut i: usize = 0;
    proof {
        reveal_with_fuel(Seq::<_>::filter, 1);
        assert(actions(r@) =~= move_actions(from@, to@, all.take(0).filter(p)));
    }
    while i < listing.len()
        invariant
            i <= listing@.len(),
            all == names(listing@),
            p == other_than(name_view(but)),
            actions(r@) == move_actions(from@, to@, all.take(i as int).filter(p)),
        decreases listing@.len() - i,
    {
        let ghost before = actions(r@);
        proof {
            assert(all.take(i + 1) =~= all.take(i as int).push(all[i as int]));
            all.take(i as int).lemma_filter_push(all[i as int], p);
        }
        let skip: bool = match but {
            Some(x) => same_name(&listing[i], x),
            None => false,
        };
        if !skip {
            let a = Action::Rename {
                from: from.child(copy_name(&listing[i])),
                to: to.child(copy_name(&listing[i])),
            };
            r.push(a);
            proof {
                assert(actions(r@) =~= before.push(a@));
                assert(actions(r@) =~= move_actions(from@, to@, all.take(i + 1).filter(p)));
            }
        }
        i += 1;
    }
    assert(all.take(i as int) =~= all);
    r
}

impl Swap {
    /// A restore of the checkpoint `id` in the process `pid`, at the time `now`,
    /// after the checkpoint `pre` was taken.
    pub fn new(store: &Store, id: u64, pre: u64, now: u64, pid: u32) -> (r: Swap)
        ensures
            r@ == SwapView::of(store@, id, pre, now, pid),
    {
        let mut name = String::new();
        push_decimal(&mut name, now);
        name.append("-pre");
        push_decimal(&mut name, pre);
        assert(name@ =~= decimal(now as nat) + "-pre"@ + decimal(pre as nat));
        Swap {
            root: store.root.clone(),
            staging: staging(store.tmp_dir(), "restore", id, pid),
            trash: store.trash_dir().entry(name.as_str()),
        }
    }

    /// Makes the workspace of the checkpoint whose tree is at `tree`.
    pub fn stage(&self, tree: FsPath) -> (r: Vec<Action>)
        ensures
            actions(r@) == self@.stage(tree@),
    {
        let exclude: Vec<Vec<u8>> = Vec::new();
        assert(names(exclude@) =~= Seq::empty());
        let mut r: Vec<Action> = Vec::new();
        r.push(Action::Discard(self.staging.clone()));
        r.push(Action::Clone { src: tree, dst: self.staging.clone(), exclude });
        r.push(Action::MakeDir(self.trash.clone()));
        assert(actions(r@) =~= self@.stage(tree@));
        r
    }

    /// Moves out what is in the workspace, but for the store; `live` are its
    /// entries.
    pub fn move_out(&self, live: &Vec<Vec<u8>>) -> (r: Vec<Action>)
        ensures
            actions(r@) == self@.move_out(names(live@)),
    {
        let store: Vec<u8> = STORE_DIR.as_bytes_vec();
        let r = moves(&self.root, &self.trash, live, Some(&store));
        assert(other_than(Some(store_name())) =~= (|n: Seq<u8>| n != store_name()));
        r
    }

    /// Moves in the workspace that was made; `staged` are its entries.
    pub fn move_in(&self, staged: &Vec<Vec<u8>>) -> (r: Vec<Action>)
        ensures
            actions(r@) == self@.move_in(names(staged@)),
    {
        let mut r = moves(&self.staging, &self.root, staged, None);
        let ghost before = actions(r@);
        proof {
            lemma_filter_none(names(staged@), other_than(None));
        }
        let last = Action::DropDir(self.staging.clone());
        r.push(last);
        assert(actions(r@) =~= before.push(last@));
        r
    }
}

proof fn lemma_filter_none(s: Seq<Seq<u8>>, p: spec_fn(Seq<u8>) -> bool)
    requires
        forall|n: Seq<u8>| #[trigger] p(n),
    ensures
        s.filter(p) == s,
    decreases s.len(),
{
    reveal_with_fuel(Seq::<_>::filter, 1);
    if s.len() > 0 {
        lemma_filter_none(s.drop_last(), p);
        assert(s.drop_last().push(s.last()) =~= s);
    } else {
        assert(s.filter(p) =~= s);
    }
}

/// Whether a restore may go on: with `yes` it was confirmed beforehand, else
/// `line`, which was typed in, must say so.
pub fn confirm(yes: bool, line: &str) -> (r: Result<(), Error>)
    ensures
        match r {
            Ok(_) => yes || says_yes(line@),
            Err(e) => !yes && !says_yes(line@) && e@ == ErrorView::Aborted,
        },
        r is Ok <==> yes || trimmed(line@) == seq!['y'] || trimmed(line@) == seq!['Y'] || trimmed(
            line@,
        ) == seq!['y', 'e', 's'],
{
    proof {
        yes_is_one_of_three_answers(line@);
    }
    if yes {
        return Ok(());
    }
    let answer = trim(line);
    if same_text(answer.as_str(), "y") || same_text(answer.as_str(), "Y") || same_text(
        answer.as_str(),
        "yes",
    ) {
        Ok(())
    } else {
        Err(Error::Aborted)
    }
}

/// A typed line confirms where nothing but one of three answers is on it; any other
/// line, an empty one among them, does not.
pub proof fn yes_is_one_of_three_answers(line: Seq<char>)
    ensures
        says_yes(line) <==> {
            let answer = trimmed(line);
            ||| answer.len() == 1 && (answer[0] == 'y' || answer[0] == 'Y')
            ||| answer.len() == 3 && answer[0] == 'y' && answer[1] == 'e' && answer[2] == 's'
        },
        says_yes(line) <==> trimmed(line) == seq!['y'] || trimmed(line) == seq!['Y'] || trimmed(
            line,
        ) == seq!['y', 'e', 's'],
{
    reveal_strlit("y");
    reveal_strlit("Y");
    reveal_strlit("yes");
    let answer = trimmed(line);
    assert("y"@ =~= seq!['y']);
    assert("Y"@ =~= seq!['Y']);
    assert("yes"@ =~= seq!['y', 'e', 's']);
    if answer.len() == 1 && answer[0] == 'y' {
        assert(answer =~= seq!['y']);
    }
    if answer.len() == 1 && answer[0] == 'Y' {
        assert(answer =~= seq!['Y']);
    }
    if answer.len() == 3 && answer[0] == 'y' && answer[1] == 'e' && answer[2] == 's' {
        assert(answer =~= seq!['y', 'e', 's']);
    }
}

/// Whether a typed line confirms.
pub open spec fn says_yes(line: Seq<char>) -> bool {
    let answer = trimmed(line);
    answer == "y"@ || answer == "Y"@ || answer == "yes"@
}

} // verus!
