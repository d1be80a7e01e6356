use timefork::clock::{age_at, epoch_secs, humanize_age, now_epoch};
use timefork::git::{exclude_addition, read_head};
use timefork::label::truncate;
use timefork::number::{decimal_text, parse_u64};
use timefork::ops::SnapMeta;
use timefork::store::Store;
use timefork::text::{chars_of, collapse, contains, is_white_space, lines_of, same_text, trim};

#[test]
fn white_space_is_that_of_unicode() {
    for n in 0..=0x10ffffu32 {
        if let Some(c) = char::from_u32(n) {
            assert_eq!(is_white_space(c), c.is_whitespace(), "{n:x}");
        }
    }
}

#[test]
fn trimming_takes_white_space_off_both_ends() {
    for s in ["", " ", "a", " a b ", "\t\r\n x\u{2003}", "\u{a0}ü\u{3000}"] {
        assert_eq!(trim(s), s.trim());
    }
}

#[test]
fn words_are_joined_by_one_blank() {
    for s in ["", "  ", "a", "  a\n\tb  c ", "one two", "\u{2003}x\u{2003}"] {
        let words: Vec<&str> = s.split_whitespace().collect();
        let got: String = collapse(s).into_iter().collect();
        assert_eq!(got, words.join(" "));
    }
}

#[test]
fn labels_are_cut_to_fit() {
    assert_eq!(truncate("rm -rf build", 80), "rm -rf build");
    assert_eq!(truncate("one\n  two\tthree", 80), "one two three");
    assert_eq!(truncate("abcdef", 6), "abcdef");
    assert_eq!(truncate("abcdefg", 6), "abcde…");
    assert_eq!(truncate("ab cdefg", 4), "ab …");
    assert_eq!(truncate("äöüß", 3), "äö…");
    assert_eq!(truncate("a", 0), "…");
    assert_eq!(truncate("", 0), "");
    assert_eq!(truncate("ab", 1), "…");
}

#[test]
fn labels_fit_and_stay_when_cut_again() {
    for s in ["", "a", "  some\nlong   label with words ", "…………", "x y z"] {
        for max in 0..12 {
            let once = truncate(s, max);
            assert_eq!(truncate(&once, max), once);
            assert!(max == 0 || once.chars().count() <= max);
            assert!(!once.contains('\n'));
        }
    }
}

#[test]
fn lines_that_are_not_blank_are_read() {
    assert_eq!(lines_of(""), Vec::<String>::new());
    assert_eq!(lines_of("\n \n\r\n"), Vec::<String>::new());
    assert_eq!(lines_of("a\r\n\n  b \nc"), vec!["a", "b", "c"]);
}

#[test]
fn a_journal_reads_back() {
    let records = vec!["{\"id\":1}".to_string(), "{\"id\":2}".to_string()];
    let text = Store::rewrite_journal(&records);
    assert_eq!(text, "{\"id\":1}\n{\"id\":2}\n");
    assert_eq!(Store::read_journal(&text), records);
    let more = format!("{text}{}", Store::append_journal("{\"id\":3}"));
    assert_eq!(
        Store::read_journal(&more),
        vec!["{\"id\":1}", "{\"id\":2}", "{\"id\":3}"]
    );
    assert_eq!(Store::rewrite_journal(&Vec::new()), "");
}

#[test]
fn texts_are_searched() {
    assert!(contains("/usr/bin/timefork hook", "timefork"));
    assert!(contains("abc", ""));
    assert!(contains("", ""));
    assert!(!contains("time fork", "timefork"));
    assert!(!contains("ab", "abc"));
    assert!(contains("aab", "ab"));
    assert!(same_text("ä", "ä"));
    assert!(!same_text("a", "b"));
}

#[test]
fn numbers_read_back() {
    for n in [0, 1, 9, 10, 45, 1000000, u64::MAX] {
        let text = decimal_text(n);
        assert_eq!(text, n.to_string());
        assert_eq!(parse_u64(&chars_of(&text), 0), Some(n));
    }
    assert_eq!(parse_u64(&chars_of("x12"), 1), Some(12));
    assert_eq!(parse_u64(&chars_of(""), 0), None);
    assert_eq!(parse_u64(&chars_of("+"), 0), None);
    assert_eq!(parse_u64(&chars_of("++1"), 0), None);
    assert_eq!(parse_u64(&chars_of("99999999999999999999"), 0), None);
}

#[test]
fn ages_are_in_the_largest_whole_unit() {
    for (delta, text) in [
        (0, "0s"),
        (59, "59s"),
        (60, "1m"),
        (3599, "59m"),
        (3600, "1h"),
        (86399, "23h"),
        (86400, "1d"),
        (864000, "10d"),
    ] {
        assert_eq!(age_at(1_000_000 + delta, 1_000_000), text);
    }
    assert_eq!(age_at(5, 9), "0s");
    assert_eq!(age_at(u64::MAX, 0), "213503982334601d");
}

#[test]
fn the_clock_runs() {
    assert_eq!(epoch_secs(Some(7)), 7);
    assert_eq!(epoch_secs(None), 0);
    let now = now_epoch();
    assert!(now > 1_600_000_000);
    assert!(now <= now_epoch());
    assert_eq!(humanize_age(now + 1000), "0s");
    assert_eq!(humanize_age(now - 3 * 86400 - 60), "3d");
}

#[test]
fn git_heads_are_read() {
    let head = read_head("ref: refs/heads/feature/x\n");
    assert_eq!(
        Store::git_head(&head, Some("0123456789abcdef\n")),
        "x@0123456"
    );
    assert_eq!(Store::git_head(&head, Some(" \n")), "x");
    assert_eq!(Store::git_head(&head, None), "x");
    let head = read_head("0123456789abcdef\n");
    assert_eq!(Store::git_head(&head, None), "0123456");
    assert_eq!(Store::git_head(&read_head("  abc "), None), "abc");
    assert_eq!(Store::git_head(&read_head("ref: main"), Some("ab")), "main@ab");
    assert_eq!(Store::git_head(&read_head("ref:main"), None), "ref:mai");
}

#[test]
fn the_exclude_line_is_added_once() {
    assert!(Store::git_exclude_self(""));
    assert!(Store::git_exclude_self("# comment\n.timefork\n"));
    assert!(!Store::git_exclude_self("x\n  .timefork/  \r\ny"));
    for (existing, addition) in [
        ("", ".timefork/\n"),
        ("node_modules\n", ".timefork/\n"),
        ("*.log", "\n.timefork/\n"),
        ("a\n.timefork/", ""),
    ] {
        assert_eq!(exclude_addition(existing), addition);
        let now = format!("{existing}{addition}");
        assert!(!Store::git_exclude_self(&now));
        assert_eq!(exclude_addition(&now), "");
    }
    assert_eq!(
        lines_of(&format!("*.log{}", exclude_addition("*.log"))),
        vec!["*.log", ".timefork/"]
    );
}

#[test]
fn a_corrupt_record_is_skipped_with_a_warning() {
    let snap = |id| SnapMeta::manual("x".to_string()).record(id, 1, None, 0, 0);
    let (snaps, warnings) = Store::take_records(vec![
        Ok(snap(1)),
        Err("expected value at line 1 column 1".to_string()),
        Ok(snap(2)),
    ]);
    assert_eq!(snaps.iter().map(|s| s.id).collect::<Vec<_>>(), vec![1, 2]);
    assert_eq!(
        warnings,
        vec!["timefork: skipping corrupt journal line: expected value at line 1 column 1"]
    );
    let (snaps, warnings) = Store::take_records(vec![]);
    assert!(snaps.is_empty() && warnings.is_empty());
}
