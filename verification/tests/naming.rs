use timefork::error::Error;
use timefork::path::FsPath;
use timefork::store::{Discovery, State, Store, STORE_DIR};
use timefork::tree_ref::TreeRef;

fn path(s: &str) -> FsPath {
    FsPath {
        absolute: s.starts_with('/'),
        parts: s
            .split('/')
            .filter(|x| !x.is_empty())
            .map(|x| x.as_bytes().to_vec())
            .collect(),
    }
}

fn store() -> Store {
    Store::init(&path("/home/me/repo"), false).unwrap()
}

#[test]
fn trees_are_named_by_number_or_as_live() {
    assert_eq!(TreeRef::parse("#45").unwrap(), TreeRef::Id(45));
    assert_eq!(TreeRef::parse("45").unwrap(), TreeRef::Id(45));
    assert_eq!(TreeRef::parse("##007").unwrap(), TreeRef::Id(7));
    assert_eq!(TreeRef::parse("+3").unwrap(), TreeRef::Id(3));
    assert_eq!(TreeRef::parse("live").unwrap(), TreeRef::Live);
    assert_eq!(TreeRef::parse("LiVe").unwrap(), TreeRef::Live);
    assert_eq!(
        TreeRef::parse("18446744073709551615").unwrap(),
        TreeRef::Id(u64::MAX)
    );
}

#[test]
fn other_names_are_refused() {
    for bad in ["", "#", "alive", "-1", " 4", "4a", "18446744073709551616", "#live"] {
        let e = TreeRef::parse(bad).unwrap_err();
        assert_eq!(
            e.message(),
            format!("expected a checkpoint id or 'live', got '{bad}'")
        );
        assert!(matches!(e, Error::BadTreeRef(s) if s == bad));
    }
}

#[test]
fn a_tree_is_named_by_what_it_is_called() {
    for t in [TreeRef::Live, TreeRef::Id(0), TreeRef::Id(45), TreeRef::Id(u64::MAX)] {
        assert_eq!(TreeRef::parse(&t.label()).unwrap(), t);
    }
    assert_eq!(TreeRef::Id(45).label(), "#45");
    assert_eq!(TreeRef::Live.label(), "live");
}

#[test]
fn trees_resolve_to_places() {
    let s = store();
    let (p, name) = TreeRef::Live.resolve(&s, false).unwrap();
    assert_eq!(p.display(), "/home/me/repo");
    assert_eq!(name, "live");
    let (p, name) = TreeRef::Id(45).resolve(&s, true).unwrap();
    assert_eq!(p.display(), "/home/me/repo/.timefork/trees/000045");
    assert_eq!(name, "#45");
    let e = TreeRef::Id(45).resolve(&s, false).unwrap_err();
    assert_eq!(
        e.message(),
        "checkpoint #45 not found (pruned or never existed)"
    );
    assert!(matches!(e, Error::NoTree(45)));
}

#[test]
fn the_store_is_laid_out_below_the_workspace() {
    let s = store();
    assert_eq!(STORE_DIR, ".timefork");
    assert_eq!(s.root.display(), "/home/me/repo");
    assert_eq!(s.dir.display(), "/home/me/repo/.timefork");
    assert_eq!(s.trees_dir().display(), "/home/me/repo/.timefork/trees");
    assert_eq!(s.tmp_dir().display(), "/home/me/repo/.timefork/tmp");
    assert_eq!(s.trash_dir().display(), "/home/me/repo/.timefork/trash");
    assert_eq!(
        s.journal_path().display(),
        "/home/me/repo/.timefork/journal.jsonl"
    );
    assert_eq!(
        s.state_path().display(),
        "/home/me/repo/.timefork/state.json"
    );
}

#[test]
fn tree_names_have_six_digits_or_more() {
    let s = store();
    for (id, name) in [
        (0, "000000"),
        (1, "000001"),
        (999999, "999999"),
        (1000000, "1000000"),
        (u64::MAX, "18446744073709551615"),
    ] {
        assert_eq!(
            s.tree(id).display(),
            format!("/home/me/repo/.timefork/trees/{name}")
        );
    }
}

#[test]
fn a_workspace_is_initialized_once() {
    let e = Store::init(&path("/w"), true).unwrap_err();
    assert_eq!(
        e.message(),
        "/w/.timefork already exists — this workspace is already initialized"
    );
    assert!(matches!(e, Error::AlreadyInitialized(_)));
    assert_eq!(State::first().next_id, 1);
}

#[test]
fn numbers_are_taken_one_after_the_other() {
    let state = State::first();
    let id = Store::peek_next_id(&state);
    assert_eq!(id, 1);
    let state = Store::bump_id(id);
    assert_eq!(Store::peek_next_id(&state), 2);
}

fn discover(start: &str, holds: &[&str]) -> Option<String> {
    let mut cur = path(start);
    loop {
        let here = holds.contains(&cur.display().as_str());
        match Store::discover_from(cur, here) {
            Ok(Discovery::Found(s)) => return Some(s.root.display()),
            Ok(Discovery::Above(up)) => cur = up,
            Err(e) => {
                assert!(matches!(e, Error::NoStore));
                assert_eq!(
                    e.message(),
                    "no .timefork store found here or in any parent directory (run `timefork init` in your workspace root)"
                );
                return None;
            }
        }
    }
}

#[test]
fn the_nearest_store_is_found() {
    assert_eq!(discover("/a/b/c", &["/a", "/a/b"]).as_deref(), Some("/a/b"));
    assert_eq!(discover("/a/b/c", &["/a/b/c"]).as_deref(), Some("/a/b/c"));
    assert_eq!(discover("/a/b/c", &["/"]).as_deref(), Some("/"));
    assert_eq!(discover("/a/b/c", &["/a/b/c/d", "/x"]), None);
    assert_eq!(discover("a/b", &["a"]).as_deref(), Some("a"));
    assert_eq!(discover("a/b", &[""]).as_deref(), Some(""));
}

#[test]
fn paths_are_taken_apart_and_shown() {
    let p = path("/home/me/repo");
    assert_eq!(p.parent().unwrap().display(), "/home/me");
    assert!(path("/").parent().is_none());
    assert!(path("").parent().is_none());
    assert_eq!(path("a").parent().unwrap().display(), "");
    assert_eq!(p.file_name().unwrap(), &b"repo".to_vec());
    assert!(path("/").file_name().is_none());
    assert!(path("a/..").file_name().is_none());
    assert_eq!(
        p.with_file_name(b"other".to_vec()).display(),
        "/home/me/other"
    );
    assert_eq!(path("a/..").with_file_name(b"x".to_vec()).display(), "a/../x");
    assert_eq!(p.entry("x").display(), "/home/me/repo/x");
    assert_eq!(path("/").entry("x").display(), "/x");
}

#[test]
fn names_that_are_not_text_are_shown_with_replacements() {
    let p = path("/w").child(vec![b'a', 0xff, b'b']);
    assert_eq!(p.display(), "/w/a\u{fffd}b");
    assert!(p.to_text().is_none());
    assert_eq!(p.file_name_text().unwrap(), "a\u{fffd}b");
    let q = path("/w").child("ä…".as_bytes().to_vec());
    assert_eq!(q.display(), "/w/ä…");
    assert_eq!(q.to_text().unwrap(), "/w/ä…");
}
