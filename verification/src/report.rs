//! What is printed, line by line.

use crate::clock::{age_at, age_text};
use crate::diff::DiffResult;
use crate::label::{truncate, truncated};
use crate::number::{
    decimal, decimal_text, padded_left, padded_right, push_decimal, push_padded_left,
    push_padded_right,
};
use crate::path::{paths, FsPath, PathView};
use crate::prune::{count, count_true, PruneReport};
use crate::store::{Snap, SnapView};
use crate::text::texts;
use vstd::prelude::*;

verus! {

/// The views of a list of checkpoints.
pub open spec fn records(v: Seq<Snap>) -> Seq<SnapView> {
    v.map_values(|s: Snap| s@)
}

/// One line of a list, in columns.
pub open spec fn columns(
    id: Seq<char>,
    age: Seq<char>,
    origin: Seq<char>,
    git: Seq<char>,
    label: Seq<char>,
) -> Seq<char> {
    padded_left(id, 5, ' ') + "  "@ + padded_left(age, 4, ' ') + "  "@ + padded_right(origin, 13)
        + " "@ + padded_right(git, 9) + " "@ + label
}

fn in_columns(id: &str, age: &str, origin: &str, git: &str, label: &str) -> (r: String)
    ensures
        r@ == columns(id@, age@, origin@, git@, label@),
{
    let mut r = String::new();
    push_padded_left(&mut r, id, 5, ' ');
    r.append("  ");
    push_padded_left(&mut r, age, 4, ' ');
    r.append("  ");
    push_padded_right(&mut r, origin, 13);
    r.append(" ");
    push_padded_right(&mut r, git, 9);
    r.append(" ");
    r.append(label);
    assert(r@ =~= columns(id@, age@, origin@, git@, label@));
    r
}

/// The line for a checkpoint; `alive` says whether its tree is there.
pub open spec fn list_row(s: SnapView, now: u64, alive: bool) -> Seq<char> {
    columns(
        decimal(s.id as nat),
        age_text(now, s.ts),
        match s.tool {
            Some(tool) => tool,
            None => s.origin,
        },
        match s.git_head {
            Some(head) => head,
            None => "-"@,
        },
        truncated(s.label, 70) + if alive {
            ""@
        } else {
            "  [pruned]"@
        },
    )
}

fn row_of(s: &Snap, now: u64, alive: bool) -> (r: String)
    ensures
        r@ == list_row(s@, now, alive),
{
    let id = decimal_text(s.id);
    let age = age_at(now, s.ts);
    let origin = match &s.tool {
        Some(tool) => tool.as_str(),
        None => s.origin.as_str(),
    };
    let git = match &s.git_head {
        Some(head) => head.as_str(),
        None => "-",
    };
    let mut label = truncate(s.label.as_str(), 70);
    if alive {
        label.append("");
    } else {
        label.append("  [pruned]");
    }
    in_columns(id.as_str(), age.as_str(), origin, git, label.as_str())
}

/// The rows of the newest `limit` checkpoints, the newest first; `alive` says of
/// each checkpoint whether its tree is there.
pub open spec fn list_rows(snaps: Seq<SnapView>, limit: nat, now: u64, alive: Seq<bool>) -> Seq<
    Seq<char>,
> {
    Seq::new(
        if limit < snaps.len() {
            limit
        } else {
            snaps.len()
        },
        |i: int| list_row(snaps[snaps.len() - 1 - i], now, alive[snaps.len() - 1 - i]),
    )
}

/// The list of checkpoints.
pub open spec fn list_lines(snaps: Seq<SnapView>, limit: nat, now: u64, alive: Seq<bool>) -> Seq<
    Seq<char>,
> {
    if snaps.len() == 0 {
        seq!["no checkpoints yet — run `timefork snap` or `timefork install-hooks`"@]
    } else {
        seq![columns("ID"@, "AGE"@, "ORIGIN"@, "GIT"@, "LABEL"@)] + list_rows(
            snaps,
            limit,
            now,
            alive,
        )
    }
}

/// The list of the newest `limit` checkpoints, the newest first; `alive` says of
/// each checkpoint whether its tree is there.
pub fn print_list(snaps: &Vec<Snap>, limit: usize, now: u64, alive: &Vec<bool>) -> (r: Vec<String>)
    requires
        alive@.len() == snaps@.len(),
    ensures
        texts(r@) == list_lines(records(snaps@), limit as nat, now, alive@),
{
    let ghost all = records(snaps@);
    let mut r: Vec<String> = Vec::new();
    if snaps.len() == 0 {
        r.push("no checkpoints yet — run `timefork snap` or `timefork install-hooks`".to_owned());
        assert(texts(r@) =~= list_lines(all, limit as nat, now, alive@));
        return r;
    }
    r.push(in_columns("ID", "AGE", "ORIGIN", "GIT", "LABEL"));
    let n: usize = snaps.len();
    let ghost head = texts(r@);
    let ghost rows = list_rows(all, limit as nat, now, alive@);
    let mut i: usize = 0;
    assert(head + rows.take(0) =~= head);
    while i < n && i < limit
        invariant
            i <= n == snaps@.len() == alive@.len(),
            i <= rows.len(),
            n > 0,
            all == records(snaps@),
            rows == list_rows(all, limit as nat, now, alive@),
            texts(r@) == head + rows.take(i as int),
        decreases n - i,
    {
        let ghost before = texts(r@);
        let k: usize = n - 1 - i;
        let line = row_of(&snaps[k], now, alive[k]);
        r.push(line);
        proof {
            assert(texts(r@) =~= before.push(line@));
            assert(rows.take(i + 1) =~= rows.take(i as int).push(rows[i as int]));
            assert(texts(r@) =~= head + rows.take(i + 1));
        }
        i += 1;
    }
    assert(rows.take(i as int) =~= rows);
    assert(texts(r@) =~= list_lines(all, limit as nat, now, alive@));
    r
}

/// How many paths a difference has of each kind.
pub open spec fn counts(
    before: Seq<char>,
    added: nat,
    middle: Seq<char>,
    modified: nat,
    end: Seq<char>,
    removed: nat,
    after: Seq<char>,
) -> Seq<char> {
    before + decimal(added) + middle + decimal(modified) + end + decimal(removed) + after
}

/// The checkpoint in detail, as far as the journal goes.
pub open spec fn show_head(s: SnapView, now: u64) -> Seq<Seq<char>> {
    let a = seq![
        "checkpoint #"@ + decimal(s.id as nat),
        "  when     "@ + age_text(now, s.ts) + " ago"@,
        "  origin   "@ + s.origin,
    ];
    let b = match s.tool {
        Some(t) => a.push("  tool     "@ + t),
        None => a,
    };
    let c = b.push("  label    "@ + s.label);
    let d = match s.git_head {
        Some(g) => c.push("  git      "@ + g),
        None => c,
    };
    let e = match s.session {
        Some(x) => d.push("  session  "@ + x),
        None => d,
    };
    match s.took_ms {
        Some(ms) => e.push("  snap took "@ + decimal(ms as nat) + "ms"@),
        None => e,
    }
}

/// The difference to an earlier checkpoint.
pub open spec fn versus(prev: u64, d: DiffResult) -> Seq<char> {
    counts(
        "  vs #"@ + decimal(prev as nat) + "   +"@,
        d.added@.len(),
        " added  ~"@,
        d.modified@.len(),
        " modified  -"@,
        d.removed@.len(),
        " removed"@,
    )
}

/// The checkpoint in detail: `tree` is its tree, where it is there, and `prev` an
/// earlier checkpoint with the difference to it.
pub open spec fn show_lines(
    s: SnapView,
    now: u64,
    tree: Option<PathView>,
    prev: Option<(u64, DiffResult)>,
) -> Seq<Seq<char>> {
    match tree {
        None => show_head(s, now).push("  tree     [pruned]"@),
        Some(p) => {
            let lines = show_head(s, now).push("  tree     "@ + p.shown());
            match prev {
                Some((id, d)) => lines.push(versus(id, d)),
                None => lines,
            }
        },
    }
}

fn push_line(r: &mut Vec<String>, a: &str, b: &str, c: &str)
    ensures
        texts(final(r)@) == texts(old(r)@).push(a@ + b@ + c@),
{
    let mut line = a.to_owned();
    line.append(b);
    line.append(c);
    r.push(line);
    assert(texts(r@) =~= texts(old(r)@).push(a@ + b@ + c@));
}

fn push_pair(r: &mut Vec<String>, a: &str, b: &str)
    ensures
        texts(final(r)@) == texts(old(r)@).push(a@ + b@),
{
    let mut line = a.to_owned();
    line.append(b);
    r.push(line);
    assert(texts(r@) =~= texts(old(r)@).push(a@ + b@));
}

fn push_counts(
    r: &mut Vec<String>,
    before: &str,
    added: usize,
    middle: &str,
    modified: usize,
    end: &str,
    removed: usize,
    after: &str,
)
    ensures
        texts(final(r)@) == texts(old(r)@).push(
            counts(
                before@,
                added as nat,
                middle@,
                modified as nat,
                end@,
                removed as nat,
                after@,
            ),
        ),
{
    let mut line = before.to_owned();
    push_decimal(&mut line, added as u64);
    line.append(middle);
    push_decimal(&mut line, modified as u64);
    line.append(end);
    push_decimal(&mut line, removed as u64);
    line.append(after);
    r.push(line);
    assert(texts(r@) =~= texts(old(r)@).push(line@));
}

/// The checkpoint in detail: `tree` is its tree, where it is there, and `prev` an
/// earlier checkpoint with the difference to it.
pub fn print_show(
    s: &Snap,
    now: u64,
    tree: Option<&FsPath>,
    prev: Option<(u64, &DiffResult)>,
) -> (r: Vec<String>)
    ensures
        texts(r@) == show_lines(
            s@,
            now,
            match tree {
                Some(p) => Some(p@),
                None => None,
            },
            match prev {
                Some((id, d)) => Some((id, *d)),
                None => None,
            },
        ),
{
    let mut r: Vec<String> = Vec::new();
    let id = decimal_text(s.id);
    let age = age_at(now, s.ts);
    assert(texts(r@) =~= Seq::empty());
    push_pair(&mut r, "checkpoint #", id.as_str());
    push_line(&mut r, "  when     ", age.as_str(), " ago");
    push_pair(&mut r, "  origin   ", s.origin.as_str());
    assert(texts(r@) =~= seq![
        "checkpoint #"@ + decimal(s.id as nat),
        "  when     "@ + age_text(now, s.ts) + " ago"@,
        "  origin   "@ + s.origin@,
    ]);
    if let Some(t) = &s.tool {
        push_pair(&mut r, "  tool     ", t.as_str());
    }
    push_pair(&mut r, "  label    ", s.label.as_str());
    if let Some(g) = &s.git_head {
        push_pair(&mut r, "  git      ", g.as_str());
    }
    if let Some(x) = &s.session {
        push_pair(&mut r, "  session  ", x.as_str());
    }
    if let Some(ms) = s.took_ms {
        let ms = decimal_text(ms);
        push_line(&mut r, "  snap took ", ms.as_str(), "ms");
    }
    assert(texts(r@) == show_head(s@, now));
    match tree {
        None => {
            r.push("  tree     [pruned]".to_owned());
            assert(texts(r@) =~= show_head(s@, now).push("  tree     [pruned]"@));
        },
        Some(p) => {
            let shown = p.display();
            push_pair(&mut r, "  tree     ", shown.as_str());
            if let Some((id, d)) = prev {
                let mut start = "  vs #".to_owned();
                push_decimal(&mut start, id);
                start.append("   +");
                push_counts(
                    &mut r,
                    start.as_str(),
                    d.added.len(),
                    " added  ~",
                    d.modified.len(),
                    " modified  -",
                    d.removed.len(),
                    " removed",
                );
            }
        },
    }
    r
}

/// Whether `i` is the place of the checkpoint to compare the checkpoint `id` with:
/// the last in the journal that has a smaller number and a tree.
pub open spec fn is_previous(snaps: Seq<Snap>, alive: Seq<bool>, id: u64, i: int) -> bool {
    &&& 0 <= i < snaps.len()
    &&& snaps[i].id < id
    &&& alive[i]
    &&& forall|k: int|
        i < k < snaps.len() ==> !((#[trigger] snaps[k]).id < id && alive[k])
}

/// The checkpoint to compare the checkpoint `id` with; `alive` says of each
/// checkpoint whether its tree is there.
pub fn previous(snaps: &Vec<Snap>, alive: &Vec<bool>, id: u64) -> (r: Option<u64>)
    requires
        alive@.len() == snaps@.len(),
    ensures
        match r {
            Some(prev) => exists|i: int| #[trigger]
                is_previous(snaps@, alive@, id, i) && prev == snaps@[i].id,
            None => forall|k: int|
                0 <= k < snaps@.len() ==> !((#[trigger] snaps@[k]).id < id && alive@[k]),
        },
        match r {
            Some(prev) => exists|i: int|
                {
                    &&& 0 <= i < snaps@.len()
                    &&& (#[trigger] snaps@[i]).id == prev
                    &&& prev < id
                    &&& alive@[i]
                    &&& forall|k: int|
                        i < k < snaps@.len() ==> (#[trigger] snaps@[k]).id >= id || !alive@[k]
                },
            None => forall|k: int|
                0 <= k < snaps@.len() ==> (#[trigger] snaps@[k]).id >= id || !alive@[k],
        },
{
    let mut i: usize = snaps.len();
    while i > 0
        invariant
            i <= snaps@.len() == alive@.len(),
            forall|k: int| i <= k < snaps@.len() ==> !((#[trigger] snaps@[k]).id < id && alive@[k]),
        decreases i,
    {
        i -= 1;
        if snaps[i].id < id && alive[i] {
            assert(is_previous(snaps@, alive@, id, i as int));
            return Some(snaps[i].id);
        }
    }
    None
}

/// A line for each path, after a mark.
pub open spec fn marked(mark: Seq<char>, v: Seq<PathView>) -> Seq<Seq<char>> {
    v.map_values(|p: PathView| mark + p.shown())
}

/// The difference between two trees, which are called `a` and `b`.
pub open spec fn diff_lines(a: Seq<char>, b: Seq<char>, d: DiffResult) -> Seq<Seq<char>> {
    if d.added@.len() == 0 && d.removed@.len() == 0 && d.modified@.len() == 0 {
        seq![a + " and "@ + b + " are identical"@]
    } else {
        (marked("A "@, paths(d.added@)) + marked("M "@, paths(d.modified@)) + marked(
            "D "@,
            paths(d.removed@),
        )).push(""@).push(
            counts(
                a + " → "@ + b + ": "@,
                d.added@.len(),
                " added, "@,
                d.modified@.len(),
                " modified, "@,
                d.removed@.len(),
                " removed"@,
            ),
        ).push(
            "content diff: git diff --no-index $(timefork path "@ + a + ") $(timefork path "@ + b
                + ")"@,
        )
    }
}

fn push_marked(r: &mut Vec<String>, mark: &str, v: &Vec<FsPath>)
    ensures
        texts(final(r)@) == texts(old(r)@) + marked(mark@, paths(v@)),
{
    let ghost head = texts(r@);
    let ghost all = marked(mark@, paths(v@));
    let mut i: usize = 0;
    assert(head + all.take(0) =~= head);
    while i < v.len()
        invariant
            i <= v@.len(),
            all == marked(mark@, paths(v@)),
            texts(r@) == head + all.take(i as int),
        decreases v@.len() - i,
    {
        let shown = v[i].display();
        push_pair(r, mark, shown.as_str());
        assert(all[i as int] == mark@ + shown@);
        assert(head + all.take(i + 1) =~= (head + all.take(i as int)).push(all[i as int]));
        i += 1;
    }
    assert(all.take(i as int) =~= all);
}

/// The difference between two trees, which are called `a` and `b`.
pub fn print_diff(a: &str, b: &str, d: &DiffResult) -> (r: Vec<String>)
    ensures
        texts(r@) == diff_lines(a@, b@, *d),
{
    let mut r: Vec<String> = Vec::new();
    assert(texts(r@) =~= Seq::empty());
    if d.added.len() == 0 && d.removed.len() == 0 && d.modified.len() == 0 {
        let mut line = a.to_owned();
        line.append(" and ");
        line.append(b);
        line.append(" are identical");
        r.push(line);
        assert(texts(r@) =~= seq![a@ + " and "@ + b@ + " are identical"@]);
        return r;
    }
    push_marked(&mut r, "A ", &d.added);
    push_marked(&mut r, "M ", &d.modified);
    push_marked(&mut r, "D ", &d.removed);
    let ghost before = marked("A "@, paths(d.added@)) + marked("M "@, paths(d.modified@)) + marked(
        "D "@,
        paths(d.removed@),
    );
    assert(texts(r@) =~= before);
    r.push("".to_owned());
    assert(texts(r@) =~= before.push(""@));
    let mut start = a.to_owned();
    start.append(" → ");
    start.append(b);
    start.append(": ");
    push_counts(
        &mut r,
        start.as_str(),
        d.added.len(),
        " added, ",
        d.modified.len(),
        " modified, ",
        d.removed.len(),
        " removed",
    );
    let ghost so_far = texts(r@);
    let mut line = "content diff: git diff --no-index $(timefork path ".to_owned();
    line.append(a);
    line.append(") $(timefork path ");
    line.append(b);
    line.append(")");
    r.push(line);
    assert(texts(r@) =~= so_far.push(line@));
    r
}

/// The overview of a store.
pub open spec fn status_lines(
    root: PathView,
    snaps: Seq<SnapView>,
    alive: Seq<bool>,
    now: u64,
    leftovers: nat,
) -> Seq<Seq<char>> {
    let a = seq![
        "workspace  "@ + root.shown(),
        "checkpoints "@ + decimal(snaps.len()) + " in journal, "@ + decimal(count_true(alive))
            + " with trees"@,
    ];
    let b = if snaps.len() > 0 {
        let last = snaps.last();
        a.push(
            "latest     #"@ + decimal(last.id as nat) + " ("@ + age_text(now, last.ts) + " ago) "@
                + truncated(last.label, 60),
        )
    } else {
        a
    };
    let c = if leftovers > 0 {
        b.push(
            "trash      "@ + decimal(leftovers)
                + " restore leftovers (reclaim with `timefork prune`)"@,
        )
    } else {
        b
    };
    c.push(
        "note: checkpoint trees are CoW clones — they share disk blocks with the workspace, so `du` wildly overstates real usage"@,
    )
}

/// The overview of a store; `alive` says of each checkpoint whether its tree is
/// there, and `leftovers` how many things restores have displaced.
pub fn print_status(
    root: &FsPath,
    snaps: &Vec<Snap>,
    alive: &Vec<bool>,
    now: u64,
    leftovers: usize,
) -> (r: Vec<String>)
    requires
        alive@.len() == snaps@.len(),
    ensures
        texts(r@) == status_lines(root@, records(snaps@), alive@, now, leftovers as nat),
{
    let ghost all = records(snaps@);
    let mut r: Vec<String> = Vec::new();
    assert(texts(r@) =~= Seq::empty());
    let shown = root.display();
    push_pair(&mut r, "workspace  ", shown.as_str());
    let n: usize = snaps.len();
    let with_trees: usize = count(alive);
    let mut line = "checkpoints ".to_owned();
    push_decimal(&mut line, n as u64);
    line.append(" in journal, ");
    push_decimal(&mut line, with_trees as u64);
    line.append(" with trees");
    let ghost before = texts(r@);
    r.push(line);
    assert(texts(r@) =~= before.push(line@));
    assert(texts(r@) =~= seq!["workspace  "@ + root@.shown(), line@]);
    if n > 0 {
        let last = &snaps[n - 1];
        assert(all.last() == last@);
        let age = age_at(now, last.ts);
        let label = truncate(last.label.as_str(), 60);
        let ghost before = texts(r@);
        let mut line = "latest     #".to_owned();
        push_decimal(&mut line, last.id);
        line.append(" (");
        line.append(age.as_str());
        line.append(" ago) ");
        line.append(label.as_str());
        r.push(line);
        assert(texts(r@) =~= before.push(line@));
    }
    if leftovers > 0 {
        let n = decimal_text(leftovers as u64);
        push_line(
            &mut r,
            "trash      ",
            n.as_str(),
            " restore leftovers (reclaim with `timefork prune`)",
        );
    }
    let ghost before = texts(r@);
    r.push(
        "note: checkpoint trees are CoW clones — they share disk blocks with the workspace, so `du` wildly overstates real usage".to_owned(),
    );
    assert(texts(r@) =~= before.push(
        "note: checkpoint trees are CoW clones — they share disk blocks with the workspace, so `du` wildly overstates real usage"@,
    ));
    r
}

/// The number, or 0.
pub open spec fn or_zero(n: Option<u64>) -> nat {
    match n {
        Some(x) => x as nat,
        None => 0,
    }
}

fn number_or_zero(n: Option<u64>) -> (r: u64)
    ensures
        r == or_zero(n),
{
    match n {
        Some(x) => x,
        None => 0,
    }
}

/// What is said once a store is made: `dir` is the store, `s` the first checkpoint,
/// and `agent` who the hooks are for.
pub open spec fn init_lines(dir: PathView, s: SnapView, agent: Seq<char>) -> Seq<Seq<char>> {
    seq![
        "initialized "@ + dir.shown() + " — baseline checkpoint #"@ + decimal(s.id as nat) + " ("@
            + decimal(or_zero(s.entries)) + " top-level entries, "@ + decimal(or_zero(s.took_ms))
            + "ms)"@,
        "next: `timefork install-hooks` to checkpoint every "@ + agent + " tool call"@,
    ]
}

/// What is said once a store is made.
pub fn report_init(dir: &FsPath, s: &Snap, agent: &str) -> (r: Vec<String>)
    ensures
        texts(r@) == init_lines(dir@, s@, agent@),
{
    let shown = dir.display();
    let mut line = "initialized ".to_owned();
    line.append(shown.as_str());
    line.append(" — baseline checkpoint #");
    push_decimal(&mut line, s.id);
    line.append(" (");
    push_decimal(&mut line, number_or_zero(s.entries));
    line.append(" top-level entries, ");
    push_decimal(&mut line, number_or_zero(s.took_ms));
    line.append("ms)");
    let mut next = "next: `timefork install-hooks` to checkpoint every ".to_owned();
    next.append(agent);
    next.append(" tool call");
    let mut r: Vec<String> = Vec::new();
    r.push(line);
    r.push(next);
    assert(texts(r@) =~= init_lines(dir@, s@, agent@));
    r
}

/// What is said once a checkpoint is taken.
pub open spec fn snap_line(s: SnapView) -> Seq<char> {
    "checkpoint #"@ + decimal(s.id as nat) + " ("@ + decimal(or_zero(s.took_ms)) + "ms)"@
}

/// What is said once a checkpoint is taken.
pub fn report_snap(s: &Snap) -> (r: String)
    ensures
        r@ == snap_line(s@),
{
    let mut r = "checkpoint #".to_owned();
    push_decimal(&mut r, s.id);
    r.append(" (");
    push_decimal(&mut r, number_or_zero(s.took_ms));
    r.append("ms)");
    r
}

/// What is asked before a restore to `target`.
pub open spec fn restore_question(id: u64, target: SnapView, now: u64) -> Seq<char> {
    "restore workspace to #"@ + decimal(id as nat) + " ("@ + age_text(now, target.ts) + " ago: "@
        + target.label + ")? [y/N]"@
}

/// What is asked before a restore to `target`.
pub fn ask_restore(id: u64, target: &Snap, now: u64) -> (r: String)
    ensures
        r@ == restore_question(id, target@, now),
{
    let age = age_at(now, target.ts);
    let mut r = "restore workspace to #".to_owned();
    push_decimal(&mut r, id);
    r.append(" (");
    r.append(age.as_str());
    r.append(" ago: ");
    r.append(target.label.as_str());
    r.append(")? [y/N]");
    r
}

/// What is said once the checkpoint `id` is restored; `pre` was taken before.
pub open spec fn restore_lines(id: u64, pre: u64) -> Seq<Seq<char>> {
    seq![
        "restored to #"@ + decimal(id as nat) + "; previous live state saved as #"@ + decimal(
            pre as nat,
        ),
        "undo with: timefork restore "@ + decimal(pre as nat) + " --yes"@,
    ]
}

/// What is said once the checkpoint `id` is restored; `pre` was taken before.
pub fn report_restore(id: u64, pre: u64) -> (r: Vec<String>)
    ensures
        texts(r@) == restore_lines(id, pre),
{
    let mut line = "restored to #".to_owned();
    push_decimal(&mut line, id);
    line.append("; previous live state saved as #");
    push_decimal(&mut line, pre);
    let mut undo = "undo with: timefork restore ".to_owned();
    push_decimal(&mut undo, pre);
    undo.append(" --yes");
    let mut r: Vec<String> = Vec::new();
    r.push(line);
    r.push(undo);
    assert(texts(r@) =~= restore_lines(id, pre));
    r
}

/// What is said of the forks that were made; `agent` is the command that starts an
/// agent.
pub open spec fn fork_lines(created: Seq<PathView>, agent: Seq<char>) -> Seq<Seq<char>> {
    let forked = marked("forked → "@, created);
    if created.len() > 0 {
        forked.push(""@).push(
            "run an agent in a fork:  cd "@ + created[0].shown() + " && "@ + agent,
        )
    } else {
        forked
    }
}

/// What is said of the forks that were made.
pub fn report_forks(created: &Vec<FsPath>, agent: &str) -> (r: Vec<String>)
    ensures
        texts(r@) == fork_lines(paths(created@), agent@),
{
    let mut r: Vec<String> = Vec::new();
    assert(texts(r@) =~= Seq::empty());
    push_marked(&mut r, "forked → ", created);
    let ghost forked = marked("forked → "@, paths(created@));
    assert(texts(r@) =~= forked);
    if created.len() > 0 {
        let first = created[0].display();
        assert(first@ == paths(created@)[0].shown());
        let mut line = "run an agent in a fork:  cd ".to_owned();
        line.append(first.as_str());
        line.append(" && ");
        line.append(agent);
        r.push("".to_owned());
        assert(texts(r@) =~= forked.push(""@));
        r.push(line);
        assert(texts(r@) =~= forked.push(""@).push(line@));
    }
    r
}

/// What is said of a prune.
pub open spec fn prune_line(removed: nat, cleared: nat) -> Seq<char> {
    "pruned "@ + decimal(removed) + " checkpoint(s), cleared "@ + decimal(cleared)
        + " trash/tmp item(s)"@
}

/// What is said of a prune.
pub fn report_prune(report: &PruneReport) -> (r: String)
    ensures
        r@ == prune_line(report.removed@.len(), report.trash_cleared as nat),
{
    let n: usize = report.removed.len();
    let mut r = "pruned ".to_owned();
    push_decimal(&mut r, n as u64);
    r.append(" checkpoint(s), cleared ");
    push_decimal(&mut r, report.trash_cleared as u64);
    r.append(" trash/tmp item(s)");
    r
}

} // verus!
