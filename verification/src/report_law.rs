//! What is printed says what it is about, word for word and in its place.

use crate::clock::age_text;
use crate::diff::DiffResult;
use crate::label::truncated;
use crate::number::{decimal, padded_left, padded_right};
use crate::path::PathView;
use crate::prune::count_true;
use crate::report::{
    columns, diff_lines, fork_lines, init_lines, is_previous, list_lines, list_row,
    marked, or_zero, prune_line, records, restore_lines, restore_question, show_head, show_lines,
    snap_line, status_lines,
};
use crate::store::{Snap, SnapView};
use vstd::prelude::*;

verus! {

/// The greater of two numbers.
pub open spec fn greater(a: nat, b: nat) -> int {
    if a < b {
        b as int
    } else {
        a as int
    }
}

/// In a row each text stands whole in its column: the number ends where the first five
/// places end, the age where the next four after two blanks do, the origin and the
/// commit start their thirteen and nine places, and the label is the rest. A text that
/// is longer than its column moves what follows. All else is blank.
pub proof fn row_has_its_columns(
    id: Seq<char>,
    age: Seq<char>,
    origin: Seq<char>,
    git: Seq<char>,
    label: Seq<char>,
)
    ensures
        ({
            let row = columns(id, age, origin, git, label);
            let a = greater(5, id.len());
            let b = a + 2 + greater(4, age.len());
            let c = b + 2 + greater(13, origin.len());
            let d = c + 1 + greater(9, git.len());
            &&& row.len() == d + 1 + label.len()
            &&& row.subrange(a - id.len(), a) == id
            &&& row.subrange(b - age.len(), b) == age
            &&& row.subrange(b + 2, b + 2 + origin.len()) == origin
            &&& row.subrange(c + 1, c + 1 + git.len()) == git
            &&& row.skip(d + 1) == label
            &&& forall|i: int|
                (0 <= i < a - id.len() || a <= i < b - age.len() || b <= i < b + 2 || b + 2
                    + origin.len() <= i < c + 1 || c + 1 + git.len() <= i < d + 1)
                    ==> #[trigger] row[i] == ' '
        }),
{
    reveal_strlit(" ");
    reveal_strlit("  ");
    let (one, two) = (" "@, "  "@);
    assert(one.len() == 1 && one[0] == ' ');
    assert(two.len() == 2 && two[0] == ' ' && two[1] == ' ');
    let row = columns(id, age, origin, git, label);
    let a = greater(5, id.len());
    let b = a + 2 + greater(4, age.len());
    let c = b + 2 + greater(13, origin.len());
    let d = c + 1 + greater(9, git.len());
    let p = padded_left(id, 5, ' ');
    let q = padded_left(age, 4, ' ');
    let r = padded_right(origin, 13);
    let s = padded_right(git, 9);
    assert(p.len() == a && q.len() == b - a - 2 && r.len() == c - b - 2 && s.len() == d - c - 1);
    lemma_parts_of_row(p, two, q, two, r, one, s, one, label);
    assert(p.subrange(a - id.len(), a) =~= id);
    assert(q.subrange(q.len() - age.len(), q.len() as int) =~= age);
    assert(r.subrange(0, origin.len() as int) =~= origin);
    assert(s.subrange(0, git.len() as int) =~= git);
    assert(row.subrange(a - id.len(), a) =~= row.subrange(0, a).subrange(a - id.len(), a));
    assert(row.subrange(b - age.len(), b) =~= row.subrange(a + 2, b).subrange(
        q.len() - age.len(),
        q.len() as int,
    ));
    assert(row.subrange(b + 2, b + 2 + origin.len()) =~= row.subrange(b + 2, c).subrange(
        0,
        origin.len() as int,
    ));
    assert(row.subrange(c + 1, c + 1 + git.len()) =~= row.subrange(c + 1, d).subrange(
        0,
        git.len() as int,
    ));
    assert forall|i: int|
        (0 <= i < a - id.len() || a <= i < b - age.len() || b <= i < b + 2 || b + 2 + origin.len()
            <= i < c + 1 || c + 1 + git.len() <= i < d + 1) implies #[trigger] row[i] == ' ' by {
        if i < a {
            assert(row[i] == row.subrange(0, a)[i]);
        } else if i < a + 2 {
            assert(row[i] == row.subrange(a, a + 2)[i - a]);
        } else if i < b {
            assert(row[i] == row.subrange(a + 2, b)[i - (a + 2)]);
        } else if i < b + 2 {
            assert(row[i] == row.subrange(b, b + 2)[i - b]);
        } else if i < c {
            assert(row[i] == row.subrange(b + 2, c)[i - (b + 2)]);
        } else if i < c + 1 {
            assert(row[i] == row.subrange(c, c + 1)[i - c]);
        } else if i < d {
            assert(row[i] == row.subrange(c + 1, d)[i - (c + 1)]);
        } else {
            assert(row[i] == row.subrange(d, d + 1)[i - d]);
        }
    }
}

/// Where the parts of a row are that are put one after the other.
proof fn lemma_parts_of_row(
    p: Seq<char>,
    g1: Seq<char>,
    q: Seq<char>,
    g2: Seq<char>,
    r: Seq<char>,
    g3: Seq<char>,
    s: Seq<char>,
    g4: Seq<char>,
    t: Seq<char>,
)
    ensures
        ({
            let row = p + g1 + q + g2 + r + g3 + s + g4 + t;
            let a = p.len() as int;
            let a2 = a + g1.len();
            let b = a2 + q.len();
            let b2 = b + g2.len();
            let c = b2 + r.len();
            let c2 = c + g3.len();
            let d = c2 + s.len();
            let d2 = d + g4.len();
            &&& row.len() == d2 + t.len()
            &&& row.subrange(0, a) == p
            &&& row.subrange(a, a2) == g1
            &&& row.subrange(a2, b) == q
            &&& row.subrange(b, b2) == g2
            &&& row.subrange(b2, c) == r
            &&& row.subrange(c, c2) == g3
            &&& row.subrange(c2, d) == s
            &&& row.subrange(d, d2) == g4
            &&& row.skip(d2) == t
        }),
{
    let f1 = p + g1;
    let f2 = f1 + q;
    let f3 = f2 + g2;
    let f4 = f3 + r;
    let f5 = f4 + g3;
    let f6 = f5 + s;
    let f7 = f6 + g4;
    let row = f7 + t;
    assert(row.take(row.len() as int) =~= row);
    lemma_front_of_row(row, f7, t);
    lemma_front_of_row(row, f6, g4);
    lemma_front_of_row(row, f5, s);
    lemma_front_of_row(row, f4, g3);
    lemma_front_of_row(row, f3, r);
    lemma_front_of_row(row, f2, g2);
    lemma_front_of_row(row, f1, q);
    lemma_front_of_row(row, p, g1);
    assert(row.subrange(0, p.len() as int) =~= p);
    assert(row.skip(f7.len() as int) =~= row.subrange(
        f7.len() as int,
        (f7.len() + t.len()) as int,
    ));
}

/// A row that starts with a text and a part behind it starts with the text, and the part
/// follows.
proof fn lemma_front_of_row(row: Seq<char>, front: Seq<char>, part: Seq<char>)
    requires
        (front + part).is_prefix_of(row),
    ensures
        front.is_prefix_of(row),
        row.subrange(front.len() as int, (front.len() + part.len()) as int) == part,
{
    let whole = front + part;
    let n = front.len() as int;
    assert(whole.len() <= row.len());
    assert forall|i: int| 0 <= i < whole.len() implies row[i] == whole[i] by {
        assert(row.subrange(0, whole.len() as int)[i] == row[i]);
    }
    assert(row.subrange(0, n) =~= front);
    assert(row.subrange(n, whole.len() as int) =~= part);
}

/// The row of a checkpoint has its number and its age, the tool that was about to run
/// or else where the checkpoint comes from, the commit or else a dash, and the label,
/// cut to 70 characters; after the label it says so where the tree is gone.
pub proof fn row_says_what_the_checkpoint_is(s: SnapView, now: u64, alive: bool, label: Seq<char>)
    requires
        alive ==> label == truncated(s.label, 70),
        !alive ==> label == truncated(s.label, 70) + "  [pruned]"@,
    ensures
        ({
            let id = decimal(s.id as nat);
            let age = age_text(now, s.ts);
            let row = list_row(s, now, alive);
            &&& (s.tool is Some && s.git_head is Some) ==> row == columns(
                id,
                age,
                s.tool->0,
                s.git_head->0,
                label,
            )
            &&& (s.tool is Some && s.git_head is None) ==> row == columns(
                id,
                age,
                s.tool->0,
                seq!['-'],
                label,
            )
            &&& (s.tool is None && s.git_head is Some) ==> row == columns(
                id,
                age,
                s.origin,
                s.git_head->0,
                label,
            )
            &&& (s.tool is None && s.git_head is None) ==> row == columns(
                id,
                age,
                s.origin,
                seq!['-'],
                label,
            )
        }),
{
    reveal_strlit("-");
    reveal_strlit("");
    assert("-"@ =~= seq!['-']);
    assert(truncated(s.label, 70) + ""@ =~= truncated(s.label, 70));
}

/// A list has a heading and a row for each of the newest checkpoints, as many as are
/// asked for or as there are, the last of the journal first.
pub proof fn list_has_the_newest_first(
    snaps: Seq<SnapView>,
    limit: nat,
    now: u64,
    alive: Seq<bool>,
    lines: Seq<Seq<char>>,
)
    requires
        snaps.len() > 0,
        lines == list_lines(snaps, limit, now, alive),
    ensures
        lines[0] == columns("ID"@, "AGE"@, "ORIGIN"@, "GIT"@, "LABEL"@),
        limit <= snaps.len() ==> lines.len() == limit + 1,
        limit >= snaps.len() ==> lines.len() == snaps.len() + 1,
        forall|i: int|
            1 <= i < lines.len() ==> #[trigger] lines[i] == list_row(
                snaps[snaps.len() - i],
                now,
                alive[snaps.len() - i],
            ),
{
}

/// The list of no checkpoints says how to take one.
pub proof fn list_of_nothing_says_so(limit: nat, now: u64, alive: Seq<bool>)
    ensures
        list_lines(Seq::empty(), limit, now, alive).len() == 1,
        list_lines(Seq::empty(), limit, now, alive)[0]
            == "no checkpoints yet — run `timefork snap` or `timefork install-hooks`"@,
{
}

/// The checkpoints of a list are seen one by one, in their order.
pub proof fn records_are_the_checkpoints(v: Seq<Snap>)
    ensures
        records(v).len() == v.len(),
        forall|i: int| 0 <= i < v.len() ==> #[trigger] records(v)[i] == v[i]@,
{
}

/// One where something is, and none where nothing is.
pub open spec fn one_if<A>(x: Option<A>) -> int {
    match x {
        Some(_) => 1,
        None => 0,
    }
}

/// A checkpoint in detail has a line for all that its record holds and none for what it
/// lacks, each after its heading: the number, the age, the origin, the tool, the label,
/// the commit, the session and the time it took.
pub proof fn details_are_those_of_the_record(s: SnapView, now: u64)
    ensures
        ({
            let lines = show_head(s, now);
            let label = 3 + one_if(s.tool);
            let git = label + 1;
            let session = git + one_if(s.git_head);
            let took = session + one_if(s.session);
            &&& lines.len() == took + one_if(s.took_ms)
            &&& lines[0] == "checkpoint #"@ + decimal(s.id as nat)
            &&& lines[1] == "  when     "@ + age_text(now, s.ts) + " ago"@
            &&& lines[2] == "  origin   "@ + s.origin
            &&& s.tool is Some ==> lines[3] == "  tool     "@ + s.tool->0
            &&& lines[label] == "  label    "@ + s.label
            &&& s.git_head is Some ==> lines[git] == "  git      "@ + s.git_head->0
            &&& s.session is Some ==> lines[session] == "  session  "@ + s.session->0
            &&& s.took_ms is Some ==> lines[took] == "  snap took "@ + decimal(
                s.took_ms->0 as nat,
            ) + "ms"@
        }),
{
}

/// After the record comes the tree, or that it is gone; and after a tree, where there is
/// a checkpoint to compare with, how many paths differ from it.
pub proof fn details_end_with_the_tree(
    s: SnapView,
    now: u64,
    tree: PathView,
    prev: u64,
    d: DiffResult,
)
    ensures
        ({
            let head = show_head(s, now);
            let n = head.len() as int;
            let gone = show_lines(s, now, None, Some((prev, d)));
            let alone = show_lines(s, now, Some(tree), None);
            let compared = show_lines(s, now, Some(tree), Some((prev, d)));
            &&& show_lines(s, now, None, None) == gone
            &&& gone.len() == n + 1 && gone.take(n) == head && gone[n] == "  tree     [pruned]"@
            &&& alone.len() == n + 1 && alone.take(n) == head && alone[n] == "  tree     "@
                + tree.shown()
            &&& compared.len() == n + 2 && compared.take(n + 1) == alone
            &&& compared[n + 1] == "  vs #"@ + decimal(prev as nat) + "   +"@ + decimal(
                d.added@.len(),
            ) + " added  ~"@ + decimal(d.modified@.len()) + " modified  -"@ + decimal(
                d.removed@.len(),
            ) + " removed"@
        }),
{
    let head = show_head(s, now);
    let n = head.len() as int;
    let alone = show_lines(s, now, Some(tree), None);
    assert(show_lines(s, now, None, Some((prev, d))).take(n) =~= head);
    assert(alone.take(n) =~= head);
    assert(show_lines(s, now, Some(tree), Some((prev, d))).take(n + 1) =~= alone);
}

/// The checkpoint to compare with is the last in the journal among those with a smaller
/// number whose tree is there, and there is only one such place.
pub proof fn comparison_is_with_the_last_before(
    snaps: Seq<Snap>,
    alive: Seq<bool>,
    id: u64,
    i: int,
    k: int,
)
    requires
        is_previous(snaps, alive, id, i),
        0 <= k < snaps.len(),
        snaps[k].id < id,
        alive[k],
    ensures
        0 <= i < snaps.len(),
        snaps[i].id < id,
        alive[i],
        k <= i,
        is_previous(snaps, alive, id, k) <==> k == i,
{
}

/// Where some checkpoint has a smaller number and a tree, there is one to compare with.
pub proof fn comparison_is_found(snaps: Seq<Snap>, alive: Seq<bool>, id: u64, k: int)
    requires
        0 <= k < snaps.len(),
        snaps[k].id < id,
        alive[k],
    ensures
        exists|i: int| #[trigger] is_previous(snaps, alive, id, i),
    decreases snaps.len() - k,
{
    if !is_previous(snaps, alive, id, k) {
        let m = choose|m: int|
            k < m < snaps.len() && (#[trigger] snaps[m]).id < id && alive[m];
        comparison_is_found(snaps, alive, id, m);
    }
}

/// Each path has a line of its own, after the mark.
pub proof fn marked_paths_are_in_order(mark: Seq<char>, v: Seq<PathView>)
    ensures
        marked(mark, v).len() == v.len(),
        forall|i: int| 0 <= i < v.len() ==> #[trigger] marked(mark, v)[i] == mark + v[i].shown(),
{
}

/// The difference of two trees names each path on a line: first those that were added,
/// after `A`, next those that were modified, after `M`, and those that were removed,
/// after `D`. An empty line and two more follow: how many there are of each, and how to
/// see the contents.
pub proof fn difference_names_each_path(a: Seq<char>, b: Seq<char>, d: DiffResult)
    requires
        d.added@.len() + d.modified@.len() + d.removed@.len() > 0,
    ensures
        ({
            let lines = diff_lines(a, b, d);
            let m = d.added@.len() as int;
            let r = m + d.modified@.len();
            let end = r + d.removed@.len();
            &&& lines.len() == end + 3
            &&& forall|i: int| 0 <= i < m ==> #[trigger] lines[i] == "A "@ + d.added@[i]@.shown()
            &&& forall|i: int|
                m <= i < r ==> #[trigger] lines[i] == "M "@ + d.modified@[i - m]@.shown()
            &&& forall|i: int|
                r <= i < end ==> #[trigger] lines[i] == "D "@ + d.removed@[i - r]@.shown()
            &&& lines[end].len() == 0
            &&& lines[end + 1] == a + " → "@ + b + ": "@ + decimal(d.added@.len()) + " added, "@
                + decimal(d.modified@.len()) + " modified, "@ + decimal(d.removed@.len())
                + " removed"@
            &&& lines[end + 2] == "content diff: git diff --no-index $(timefork path "@ + a
                + ") $(timefork path "@ + b + ")"@
        }),
{
    reveal_strlit("");
}

/// Two trees that do not differ are said to be identical, and nothing else is said.
pub proof fn no_difference_is_identical(a: Seq<char>, b: Seq<char>, d: DiffResult)
    requires
        d.added@.len() + d.modified@.len() + d.removed@.len() == 0,
    ensures
        diff_lines(a, b, d).len() == 1,
        diff_lines(a, b, d)[0] == a + " and "@ + b + " are identical"@,
{
}

/// The overview names the workspace, counts the checkpoints and those with trees, tells
/// of the last checkpoint where there is one and of leftovers where there are any, and
/// ends with a note.
pub proof fn overview_counts_what_is_there(
    root: PathView,
    snaps: Seq<SnapView>,
    alive: Seq<bool>,
    now: u64,
    leftovers: nat,
    latest: int,
)
    requires
        snaps.len() == 0 ==> latest == 0,
        snaps.len() > 0 ==> latest == 1,
    ensures
        ({
            let lines = status_lines(root, snaps, alive, now, leftovers);
            let last = snaps[snaps.len() - 1];
            &&& leftovers == 0 ==> lines.len() == latest + 3
            &&& leftovers > 0 ==> lines.len() == latest + 4
            &&& lines[0] == "workspace  "@ + root.shown()
            &&& lines[1] == "checkpoints "@ + decimal(snaps.len()) + " in journal, "@ + decimal(
                count_true(alive),
            ) + " with trees"@
            &&& snaps.len() > 0 ==> lines[2] == "latest     #"@ + decimal(last.id as nat) + " ("@
                + age_text(now, last.ts) + " ago) "@ + truncated(last.label, 60)
            &&& leftovers > 0 ==> lines[latest + 2] == "trash      "@ + decimal(leftovers)
                + " restore leftovers (reclaim with `timefork prune`)"@
            &&& lines[lines.len() - 1]
                == "note: checkpoint trees are CoW clones — they share disk blocks with the workspace, so `du` wildly overstates real usage"@
        }),
{
}

/// A number that was not recorded counts as none.
pub proof fn unknown_number_is_zero(n: u64)
    ensures
        or_zero(Some(n)) == n,
        or_zero(None) == 0,
{
}

/// A new store is reported with its directory and its first checkpoint, and what to do
/// next.
pub proof fn new_store_is_reported(dir: PathView, s: SnapView, agent: Seq<char>)
    ensures
        init_lines(dir, s, agent).len() == 2,
        init_lines(dir, s, agent)[0] == "initialized "@ + dir.shown()
            + " — baseline checkpoint #"@ + decimal(s.id as nat) + " ("@ + decimal(
            match s.entries {
                Some(n) => n as nat,
                None => 0,
            },
        ) + " top-level entries, "@ + decimal(
            match s.took_ms {
                Some(ms) => ms as nat,
                None => 0,
            },
        ) + "ms)"@,
        init_lines(dir, s, agent)[1] == "next: `timefork install-hooks` to checkpoint every "@
            + agent + " tool call"@,
{
}

/// A checkpoint is reported with its number and the time it took.
pub proof fn checkpoint_is_reported(s: SnapView)
    ensures
        snap_line(s) == "checkpoint #"@ + decimal(s.id as nat) + " ("@ + decimal(
            match s.took_ms {
                Some(ms) => ms as nat,
                None => 0,
            },
        ) + "ms)"@,
{
}

/// What is asked before a restore tells the number, the age and the label of the
/// checkpoint.
pub proof fn question_names_the_target(id: u64, target: SnapView, now: u64)
    ensures
        restore_question(id, target, now) == "restore workspace to #"@ + decimal(id as nat)
            + " ("@ + age_text(now, target.ts) + " ago: "@ + target.label + ")? [y/N]"@,
{
}

/// A restore is reported with both checkpoints, and the command that undoes it restores
/// the one that was taken before.
pub proof fn restore_says_how_to_undo_it(id: u64, pre: u64)
    ensures
        restore_lines(id, pre).len() == 2,
        restore_lines(id, pre)[0] == "restored to #"@ + decimal(id as nat)
            + "; previous live state saved as #"@ + decimal(pre as nat),
        restore_lines(id, pre)[1] == "undo with: timefork restore "@ + decimal(pre as nat)
            + " --yes"@,
{
}

/// Each fork is reported on a line; where there are any, an empty line and a command
/// that starts an agent in the first of them follow.
pub proof fn forks_are_reported(created: Seq<PathView>, agent: Seq<char>)
    ensures
        ({
            let lines = fork_lines(created, agent);
            let n = created.len() as int;
            &&& n == 0 ==> lines.len() == 0
            &&& n > 0 ==> lines.len() == n + 2 && lines[n].len() == 0 && lines[n + 1]
                == "run an agent in a fork:  cd "@ + created[0].shown() + " && "@ + agent
            &&& forall|i: int|
                0 <= i < n ==> #[trigger] lines[i] == "forked → "@ + created[i].shown()
        }),
{
    reveal_strlit("");
}

/// A prune is reported with how many checkpoints are gone and how many leftovers.
pub proof fn prune_is_counted(removed: nat, cleared: nat)
    ensures
        prune_line(removed, cleared) == "pruned "@ + decimal(removed)
            + " checkpoint(s), cleared "@ + decimal(cleared) + " trash/tmp item(s)"@,
{
}

} // verus!
