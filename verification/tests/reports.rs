use timefork::diff::DiffResult;
use timefork::error::Error;
use timefork::ops::SnapMeta;
use timefork::path::FsPath;
use timefork::prune::{prune, prune_limits, PruneReport};
use timefork::report::{
    ask_restore, previous, print_diff, print_list, print_show, print_status, report_forks,
    report_init, report_prune, report_restore, report_snap,
};
use timefork::store::{Snap, Store};

fn path(s: &str) -> FsPath {
    FsPath {
        absolute: s.starts_with('/'),
        parts: s
            .split('/')
            .filter(|x| !x.is_empty())
            .map(|x| x.as_bytes().to_vec())
            .collect(),
    }
}

fn snap(id: u64, ts: u64) -> Snap {
    SnapMeta::manual(format!("label {id}")).record(id, ts, None, 4, 12)
}

fn ids(v: &[Snap]) -> Vec<u64> {
    v.iter().map(|s| s.id).collect()
}

#[test]
fn checkpoints_are_listed_newest_first() {
    let mut a = snap(7, 940);
    a.tool = Some("Bash".to_string());
    a.git_head = Some("main@0123456".to_string());
    let snaps = vec![snap(1, 0), snap(2, 100), a];
    let lines = print_list(&snaps, 30, 1000, &vec![false, true, true]);
    assert_eq!(
        lines,
        vec![
            "   ID   AGE  ORIGIN        GIT       LABEL",
            "    7    1m  Bash          main@0123456 label 7",
            "    2   15m  manual        -         label 2",
            "    1   16m  manual        -         label 1  [pruned]",
        ]
    );
    assert_eq!(
        lines[0],
        format!("{:>5}  {:>4}  {:<13} {:<9} LABEL", "ID", "AGE", "ORIGIN", "GIT")
    );
    assert_eq!(
        lines[2],
        format!("{:>5}  {:>4}  {:<13} {:<9} {}{}", 2, "15m", "manual", "-", "label 2", "")
    );
    let two = print_list(&snaps, 2, 1000, &vec![false, true, true]);
    assert_eq!(two, lines[..3].to_vec());
    assert_eq!(print_list(&snaps, 0, 1000, &vec![true, true, true]).len(), 1);
}

#[test]
fn an_empty_list_says_what_to_do() {
    assert_eq!(
        print_list(&vec![], 30, 0, &vec![]),
        vec!["no checkpoints yet — run `timefork snap` or `timefork install-hooks`"]
    );
}

#[test]
fn a_checkpoint_is_shown_in_detail() {
    let mut s = snap(45, 1000);
    s.tool = Some("Bash".to_string());
    s.session = Some("abc".to_string());
    s.git_head = Some("main@1".to_string());
    let d = DiffResult {
        added: vec![path("a")],
        removed: vec![],
        modified: vec![path("b"), path("c")],
    };
    assert_eq!(
        print_show(&s, 1030, Some(&path("/w/t")), Some((44, &d))),
        vec![
            "checkpoint #45",
            "  when     30s ago",
            "  origin   manual",
            "  tool     Bash",
            "  label    label 45",
            "  git      main@1",
            "  session  abc",
            "  snap took 12ms",
            "  tree     /w/t",
            "  vs #44   +1 added  ~2 modified  -0 removed",
        ]
    );
    let mut s = snap(1, 1000);
    s.took_ms = None;
    assert_eq!(
        print_show(&s, 1000, None, Some((44, &d))),
        vec![
            "checkpoint #1",
            "  when     0s ago",
            "  origin   manual",
            "  label    label 1",
            "  tree     [pruned]",
        ]
    );
    assert_eq!(print_show(&s, 1000, Some(&path("/w/t")), None).len(), 5);
}

#[test]
fn a_checkpoint_is_compared_with_the_one_before() {
    let snaps = vec![snap(1, 0), snap(3, 0), snap(4, 0), snap(6, 0)];
    let alive = vec![true, true, false, true];
    assert_eq!(previous(&snaps, &alive, 6), Some(3));
    assert_eq!(previous(&snaps, &alive, 3), Some(1));
    assert_eq!(previous(&snaps, &alive, 1), None);
    assert_eq!(previous(&snaps, &alive, 100), Some(6));
}

#[test]
fn differences_are_printed() {
    let d = DiffResult {
        added: vec![path("new")],
        removed: vec![path("old/x")],
        modified: vec![path("src/main.rs")],
    };
    assert_eq!(
        print_diff("#45", "live", &d),
        vec![
            "A new",
            "M src/main.rs",
            "D old/x",
            "",
            "#45 → live: 1 added, 1 modified, 1 removed",
            "content diff: git diff --no-index $(timefork path #45) $(timefork path live)",
        ]
    );
    let none = DiffResult {
        added: vec![],
        removed: vec![],
        modified: vec![],
    };
    assert_eq!(
        print_diff("#1", "#2", &none),
        vec!["#1 and #2 are identical"]
    );
}

#[test]
fn the_status_is_printed() {
    let snaps = vec![snap(1, 0), snap(2, 3600)];
    let note = "note: checkpoint trees are CoW clones — they share disk blocks with the workspace, so `du` wildly overstates real usage";
    assert_eq!(
        print_status(&path("/w"), &snaps, &vec![false, true], 7300, 3),
        vec![
            "workspace  /w",
            "checkpoints 2 in journal, 1 with trees",
            "latest     #2 (1h ago) label 2",
            "trash      3 restore leftovers (reclaim with `timefork prune`)",
            note,
        ]
    );
    assert_eq!(
        print_status(&path("/w"), &vec![], &vec![], 0, 0),
        vec!["workspace  /w", "checkpoints 0 in journal, 0 with trees", note]
    );
}

#[test]
fn operations_say_what_they_did() {
    let s = snap(1, 0);
    assert_eq!(
        report_init(&path("/w/.timefork"), &s, "agent"),
        vec![
            "initialized /w/.timefork — baseline checkpoint #1 (4 top-level entries, 12ms)",
            "next: `timefork install-hooks` to checkpoint every agent tool call",
        ]
    );
    assert_eq!(report_snap(&s), "checkpoint #1 (12ms)");
    assert_eq!(
        ask_restore(1, &s, 59),
        "restore workspace to #1 (59s ago: label 1)? [y/N]"
    );
    assert_eq!(
        report_restore(1, 2),
        vec![
            "restored to #1; previous live state saved as #2",
            "undo with: timefork restore 2 --yes",
        ]
    );
    assert_eq!(
        report_forks(&vec![path("/a"), path("/b")], "run"),
        vec![
            "forked → /a",
            "forked → /b",
            "",
            "run an agent in a fork:  cd /a && run",
        ]
    );
    assert_eq!(report_forks(&vec![], "run"), Vec::<String>::new());
    assert_eq!(
        report_prune(&PruneReport {
            removed: vec![1, 2],
            trash_cleared: 3
        }),
        "pruned 2 checkpoint(s), cleared 3 trash/tmp item(s)"
    );
}

#[test]
fn cleared_leftovers_are_counted() {
    let r = PruneReport::new(vec![3], &vec![true, false, true]);
    assert_eq!((r.removed, r.trash_cleared), (vec![3], 2));
    assert_eq!(PruneReport::new(vec![], &vec![]).trash_cleared, 0);
}

#[test]
fn no_age_is_beyond_the_greatest_number_of_hours() {
    let (_, secs) = prune_limits(None, Some(u64::MAX)).unwrap();
    let plan = prune(vec![snap(1, 0)], u64::MAX, None, secs);
    assert!(plan.removed.is_empty());
}

#[test]
fn the_newest_of_the_young_are_kept() {
    let snaps = || vec![snap(1, 10), snap(2, 20), snap(3, 30), snap(4, 40)];
    let plan = prune(snaps(), 50, Some(2), None);
    assert_eq!((ids(&plan.kept), plan.removed), (vec![3, 4], vec![1, 2]));
    let plan = prune(snaps(), 50, None, Some(30));
    assert_eq!((ids(&plan.kept), plan.removed), (vec![2, 3, 4], vec![1]));
    let plan = prune(snaps(), 50, Some(1), Some(30));
    assert_eq!((ids(&plan.kept), plan.removed), (vec![4], vec![1, 2, 3]));
    let plan = prune(snaps(), 50, Some(9), None);
    assert_eq!((ids(&plan.kept), plan.removed), (vec![1, 2, 3, 4], vec![]));
    let plan = prune(snaps(), 50, Some(0), None);
    assert_eq!((ids(&plan.kept), plan.removed), (vec![], vec![1, 2, 3, 4]));
    // what is yet to come is not old
    let plan = prune(snaps(), 5, None, Some(0));
    assert_eq!(ids(&plan.kept), vec![1, 2, 3, 4]);
}

#[test]
fn pruning_again_drops_nothing() {
    let snaps = vec![snap(1, 10), snap(2, 20), snap(3, 30), snap(4, 40)];
    let once = prune(snaps, 50, Some(2), Some(35));
    let twice = prune(once.kept, 50, Some(2), Some(35));
    assert_eq!(ids(&twice.kept), vec![3, 4]);
    assert!(twice.removed.is_empty());
}

#[test]
fn a_number_that_comes_twice_counts_by_its_first_record() {
    let plan = prune(vec![snap(1, 10), snap(1, 40), snap(2, 40)], 50, None, Some(20));
    assert_eq!((ids(&plan.kept), plan.removed), (vec![2], vec![1, 1]));
    let journal = vec![snap(1, 10), snap(1, 40)];
    assert_eq!(Store::find_snap(&journal, 1).unwrap().ts, 10);
}

#[test]
fn a_prune_needs_a_limit() {
    assert_eq!(prune_limits(Some(5), None).unwrap(), (Some(5), None));
    assert_eq!(
        prune_limits(None, Some(2)).unwrap(),
        (None, Some(7200))
    );
    let most = u64::MAX / 3600;
    assert_eq!(
        prune_limits(None, Some(most)).unwrap(),
        (None, Some(most * 3600))
    );
    assert_eq!(
        prune_limits(Some(1), Some(most + 1)).unwrap(),
        (Some(1), Some(u64::MAX))
    );
    assert_eq!(
        prune_limits(None, Some(u64::MAX)).unwrap(),
        (None, Some(u64::MAX))
    );
    let e = prune_limits(None, None).unwrap_err();
    assert_eq!(
        e.message(),
        "nothing to do: pass --keep N and/or --older-than HOURS"
    );
    assert!(matches!(e, Error::NothingToPrune));
}
