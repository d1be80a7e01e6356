use timefork::error::Error;
use timefork::hook::{describe_tool, label_tool, show_path, Payload};
use timefork::json::{Json, MAX_DEPTH};
use timefork::path::FsPath;
use timefork::settings::{
    command_for, install, install_hooks, read_settings, report_install, settings_name,
    settings_path, MATCHER,
};
use timefork::store::Store;

fn path(s: &str) -> FsPath {
    FsPath {
        absolute: s.starts_with('/'),
        parts: s
            .split('/')
            .filter(|x| !x.is_empty())
            .map(|x| x.as_bytes().to_vec())
            .collect(),
    }
}

fn json(s: &str) -> Json {
    Json::parse(s).unwrap()
}

fn same(a: &Json, b: &Json) -> bool {
    a.pretty() == b.pretty()
}

#[test]
fn json_is_read_and_written() {
    let v = json("{\"b\": [1, 2.5, null, true, \"x\\ny\"], \"a\": {}}");
    assert_eq!(
        v.pretty(),
        "{\n  \"a\": {},\n  \"b\": [\n    1,\n    2.5,\n    null,\n    true,\n    \"x\\ny\"\n  ]\n}"
    );
    assert!(same(&json(&v.pretty()), &v));
    assert!(same(&json(&(v.pretty() + "\n")), &v));
}

#[test]
fn text_that_is_not_json_is_refused() {
    let e = Json::parse("garbage").unwrap_err();
    assert_eq!(e.message(), "expected value at line 1 column 1");
    assert!(matches!(e, Error::BadJson(_)));
    assert!(Json::parse("").is_err());
    assert!(Json::parse("{} x").is_err());
    let deep = "[".repeat(127) + &"]".repeat(127);
    assert!(Json::parse(&deep).is_ok());
    let written = json(&deep).pretty();
    assert!(same(&json(&written), &json(&deep)));
    assert!(same(&json(&(written + "\n")), &json(&deep)));
    let deeper = "[".repeat(128) + &"]".repeat(128);
    assert!(Json::parse(&deeper).is_err());
}

#[test]
fn the_last_of_fields_with_one_name_counts() {
    let v = json("{\"a\": \"x\", \"a\": \"y\"}");
    assert_eq!(v.field_text("a"), Some("y"));
    let w = Json::Object(vec![
        ("a".to_string(), Json::Text("x".to_string())),
        ("a".to_string(), Json::Text("y".to_string())),
    ]);
    assert_eq!(w.field_text("a"), Some("y"));
    assert!(same(&v, &w));
    assert!(v.field("b").is_none());
    assert!(json("[]").field("a").is_none());
    assert!(json("{\"a\": 1}").field_text("a").is_none());
}

const BASH: &str = "{\"hook_event_name\":\"PreToolUse\",\"session_id\":\"s1\",\"cwd\":\"/w\",\"tool_name\":\"Bash\",\"tool_input\":{\"command\":\"rm -rf\\n  build\"}}";

#[test]
fn a_shell_command_leads_to_a_checkpoint() {
    let p = Payload::read(BASH).unwrap();
    assert_eq!(p.cwd().as_deref(), Some("/w"));
    let m = p.checkpoint(&path("/w")).unwrap();
    assert_eq!(m.origin, "hook");
    assert_eq!(m.label, "rm -rf build");
    assert_eq!(m.tool.as_deref(), Some("Bash"));
    assert_eq!(m.session.as_deref(), Some("s1"));
}

#[test]
fn the_start_of_a_session_leads_to_a_checkpoint() {
    let p = Payload::read("{\"hook_event_name\":\"SessionStart\"}").unwrap();
    assert!(p.cwd().is_none());
    let m = p.checkpoint(&path("/w")).unwrap();
    assert_eq!(m.origin, "session-start");
    assert_eq!(m.label, "agent session started");
    assert!(m.tool.is_none());
    assert!(m.session.is_none());
}

#[test]
fn tools_that_only_read_lead_to_none() {
    for raw in [
        "{\"hook_event_name\":\"PreToolUse\",\"tool_name\":\"Read\"}",
        "{\"hook_event_name\":\"PreToolUse\"}",
        "{\"hook_event_name\":\"PostToolUse\",\"tool_name\":\"Bash\"}",
        "{\"hook_event_name\":7}",
        "{}",
        "[]",
        "null",
    ] {
        assert!(Payload::read(raw).unwrap().checkpoint(&path("/w")).is_none());
    }
}

#[test]
fn garbage_is_an_error() {
    let e = Payload::read("not json").unwrap_err();
    assert_eq!(e.message(), "expected ident at line 1 column 2");
}

#[test]
fn every_mutating_tool_leads_to_a_checkpoint() {
    for (tool, label) in [
        ("Bash", ""),
        ("Edit", "edit src/a.rs"),
        ("Write", "write src/a.rs"),
        ("MultiEdit", "multiedit src/a.rs"),
        ("NotebookEdit", "notebookedit src/a.rs"),
    ] {
        let raw = format!(
            "{{\"hook_event_name\":\"PreToolUse\",\"tool_name\":\"{tool}\",\"tool_input\":{{\"file_path\":\"/w/src/a.rs\"}}}}"
        );
        let m = Payload::read(&raw).unwrap().checkpoint(&path("/w")).unwrap();
        assert_eq!(m.label, label);
        assert_eq!(m.tool.as_deref(), Some(tool));
    }
}

#[test]
fn edits_are_described_by_their_path() {
    let root = path("/w");
    let input = json("{\"notebook_path\":\"/w/n.ipynb\"}");
    assert_eq!(describe_tool("NotebookEdit", &input, &root), "notebookedit n.ipynb");
    let input = json("{\"file_path\":\"/elsewhere/x\"}");
    assert_eq!(describe_tool("Write", &input, &root), "write /elsewhere/x");
    assert_eq!(describe_tool("Edit", &json("{}"), &root), "edit ?");
    assert_eq!(describe_tool("Edit", &json("null"), &root), "edit ?");
    assert_eq!(describe_tool("Read", &input, &root), "Read");
    let long = format!("{{\"file_path\":\"/w/{}\"}}", "x".repeat(80));
    assert_eq!(
        describe_tool("Edit", &json(&long), &root),
        format!("edit {}…", "x".repeat(69))
    );
    let long = format!("{{\"command\":\"{}\"}}", "y".repeat(81));
    assert_eq!(
        describe_tool("Bash", &json(&long), &root),
        format!("{}…", "y".repeat(79))
    );
    assert_eq!(label_tool("Edit", &json("{}"), "a  b"), "edit a b");
}

#[test]
fn paths_are_shown_from_the_workspace() {
    assert_eq!(show_path("/w/src/a.rs", &path("/w")), "src/a.rs");
    assert_eq!(show_path("/wide/a.rs", &path("/w")), "/wide/a.rs");
    assert_eq!(show_path("a.rs", &path("/w")), "a.rs");
    assert_eq!(show_path("/w", &path("/w")), "");
    let odd = path("/w").child(vec![0xff]);
    assert_eq!(show_path("/w/a", &odd), "/w/a");
}

#[test]
fn hooks_are_installed_in_empty_settings() {
    let (text, events) = install_hooks(None, Some("/bin/timefork"), "settings.json").unwrap();
    assert_eq!(events, vec!["PreToolUse", "SessionStart"]);
    assert_eq!(
        text,
        "{\n  \"hooks\": {\n    \"PreToolUse\": [\n      {\n        \"hooks\": [\n          {\n            \"command\": \"/bin/timefork hook\",\n            \"type\": \"command\"\n          }\n        ],\n        \"matcher\": \"Bash|Edit|Write|MultiEdit|NotebookEdit\"\n      }\n    ],\n    \"SessionStart\": [\n      {\n        \"hooks\": [\n          {\n            \"command\": \"/bin/timefork hook\",\n            \"type\": \"command\"\n          }\n        ]\n      }\n    ]\n  }\n}\n"
    );
    assert_eq!(MATCHER, "Bash|Edit|Write|MultiEdit|NotebookEdit");
}

#[test]
fn installing_again_changes_nothing() {
    let (text, _) = install_hooks(None, None, "settings.json").unwrap();
    let (again, events) = install_hooks(Some(&text), Some("/other"), "settings.json").unwrap();
    assert_eq!(again, text);
    assert!(events.is_empty());
}

#[test]
fn installing_a_renamed_program_again_changes_nothing() {
    let (text, events) = install_hooks(None, Some("/usr/bin/tf"), "settings.json").unwrap();
    assert_eq!(events, vec!["PreToolUse", "SessionStart"]);
    let (again, events) = install_hooks(Some(&text), Some("/usr/bin/tf"), "settings.json").unwrap();
    assert_eq!(again, text);
    assert!(events.is_empty());
    // another program is another matter
    let (_, events) = install_hooks(Some(&text), Some("/usr/bin/other"), "settings.json").unwrap();
    assert_eq!(events, vec!["PreToolUse", "SessionStart"]);
}

#[test]
fn a_program_that_was_moved_is_recognized() {
    let (text, _) = install_hooks(None, Some("/old/timefork"), "settings.json").unwrap();
    let (again, events) = install_hooks(Some(&text), Some("/new/tf"), "settings.json").unwrap();
    assert_eq!(again, text);
    assert!(events.is_empty());
}

#[test]
fn other_settings_are_kept() {
    let raw = "{\"model\":\"m\",\"n\":20,\"hooks\":{\"Stop\":[1],\"PreToolUse\":[{\"hooks\":[{\"command\":\"lint\"}]}]}}";
    let (text, events) = install_hooks(Some(raw), Some("/bin/timefork"), "s").unwrap();
    assert_eq!(events, vec!["PreToolUse", "SessionStart"]);
    let v = json(&text);
    assert_eq!(v.field_text("model"), Some("m"));
    assert!(same(v.field("n").unwrap(), &json("20")));
    let hooks = v.field("hooks").unwrap();
    assert!(same(hooks.field("Stop").unwrap(), &json("[1]")));
    match hooks.field("PreToolUse").unwrap() {
        Json::Array(entries) => {
            assert_eq!(entries.len(), 2);
            assert!(same(&entries[0], &json("{\"hooks\":[{\"command\":\"lint\"}]}")));
            assert_eq!(entries[1].field_text("matcher"), Some(MATCHER));
        }
        _ => panic!("an array"),
    }
}

#[test]
fn an_entry_of_this_program_is_recognized() {
    let raw = "{\"hooks\":{\"PreToolUse\":[{},{\"hooks\":\"x\"},{\"hooks\":[{},{\"command\":\"/old/timefork hook\"}]}]}}";
    let (_, events) = install_hooks(Some(raw), None, "s").unwrap();
    assert_eq!(events, vec!["SessionStart"]);
}

#[test]
fn settings_that_are_not_json_are_refused() {
    for raw in ["{\"model\": \"x\",}", "{broken", "?", "\u{feff}"] {
        let e = install_hooks(Some(raw), None, "s").unwrap_err();
        assert!(matches!(e, Error::BadJson(_)));
        let e = read_settings(Some(raw)).unwrap_err();
        assert_eq!(e.message(), Json::parse(raw).unwrap_err().message());
    }
    assert!(same(&read_settings(None).unwrap(), &json("{}")));
    assert!(same(&read_settings(Some("[1]")).unwrap(), &json("[1]")));
}

#[test]
fn blank_settings_count_as_none() {
    let (text, events) = install_hooks(None, Some("/bin/timefork"), "s").unwrap();
    for raw in ["", "\n", " \t\r\n", "\u{a0}\u{3000}"] {
        assert!(same(&read_settings(Some(raw)).unwrap(), &json("{}")));
        let (t, e) = install_hooks(Some(raw), Some("/bin/timefork"), "s").unwrap();
        assert_eq!(t, text);
        assert_eq!(e, events);
    }
}

#[test]
fn installing_again_adds_nothing_beside_fractions() {
    let raw = "{\"a\":2.5,\"b\":[1e300,-0.0,7.6e40,123456789012345678901234567890],\"c\":{\"d\":1.0}}";
    let (text, events) = install_hooks(Some(raw), Some("/usr/bin/tf"), "s").unwrap();
    assert_eq!(events.len(), 2);
    let (again, events) = install_hooks(Some(&text), Some("/usr/bin/tf"), "s").unwrap();
    assert!(events.is_empty());
    assert!(matches!(json(&again).field("a"), Some(Json::Fraction(_))));
    match json(&text).field("b").unwrap() {
        Json::Array(items) => assert!(items.iter().all(|x| matches!(x, Json::Fraction(_)))),
        _ => panic!("an array"),
    }
}

#[test]
fn installing_again_writes_the_same_beside_integers() {
    let raw = "{\"a\":[0,-1,18446744073709551615,{\"b\":[[[]]]}],\"hooks\":{\"Stop\":[7]}}";
    let (text, events) = install_hooks(Some(raw), Some("/usr/bin/tf"), "s").unwrap();
    assert_eq!(events.len(), 2);
    let (again, events) = install_hooks(Some(&text), Some("/usr/bin/tf"), "s").unwrap();
    assert_eq!(again, text);
    assert!(events.is_empty());
}

#[test]
fn what_is_nested_too_deep_is_refused() {
    let nested = |n: usize| format!("{}{}", "[".repeat(n), "]".repeat(n));
    assert_eq!(MAX_DEPTH, 127);
    let deepest = json(&nested(127));
    assert!(same(&json(&deepest.pretty()), &deepest));
    assert!(matches!(Json::parse(&nested(128)), Err(Error::BadJson(_))));
    // the deepest settings that are read take the hooks, and are read again
    let raw = format!("{{\"x\":{}}}", nested(126));
    let (text, _) = install_hooks(Some(&raw), None, "s").unwrap();
    let (again, events) = install_hooks(Some(&text), None, "s").unwrap();
    assert_eq!(again, text);
    assert!(events.is_empty());
}

#[test]
fn the_settings_are_in_the_directory_of_the_agent() {
    let store = Store::init(&path("/w"), false).unwrap();
    assert_eq!(settings_path(&store, "helper").display(), "/w/.helper/settings.json");
    assert_eq!(settings_name("helper"), ".helper/settings.json");
}

#[test]
fn integers_read_back() {
    let raw = "[0,18446744073709551615,-9223372036854775808,-1,2.5]";
    let v = json(raw);
    match &v {
        Json::Array(items) => {
            assert!(matches!(items[0], Json::Unsigned(0)));
            assert!(matches!(items[1], Json::Unsigned(u64::MAX)));
            assert!(matches!(items[2], Json::Signed(i64::MIN)));
            assert!(matches!(items[3], Json::Signed(-1)));
            assert!(matches!(items[4], Json::Fraction(_)));
        }
        _ => panic!("an array"),
    }
    assert_eq!(json(&v.pretty()).pretty(), v.pretty());
    assert_eq!(Json::Signed(7).pretty(), "7");
    assert!(matches!(json("7"), Json::Unsigned(7)));
}

#[test]
fn settings_of_another_shape_are_refused() {
    let e = install_hooks(Some("[]"), None, "conf/settings.json").unwrap_err();
    assert_eq!(e.message(), "conf/settings.json is not a JSON object");
    assert!(matches!(e, Error::SettingsNotObject(_)));
    let e = install_hooks(Some("{\"hooks\":1}"), None, "s").unwrap_err();
    assert_eq!(e.message(), "settings 'hooks' is not an object");
    assert!(matches!(e, Error::HooksNotObject));
    let e = install_hooks(Some("{\"hooks\":{\"SessionStart\":{}}}"), None, "s").unwrap_err();
    assert_eq!(e.message(), "settings hooks.SessionStart is not an array");
    assert!(matches!(e, Error::EventNotArray(_)));
    let e = install(json("{\"hooks\":{\"PreToolUse\":null}}"), "c", "s").unwrap_err();
    assert_eq!(e.message(), "settings hooks.PreToolUse is not an array");
}

#[test]
fn the_command_names_the_program() {
    assert_eq!(command_for(Some("/bin/timefork")), "/bin/timefork hook");
    assert_eq!(command_for(None), "timefork hook");
}

#[test]
fn what_was_installed_is_said() {
    let file = path("/w/conf/settings.json");
    assert_eq!(
        report_install(&vec![], &file, "the agent"),
        vec!["hooks already installed in /w/conf/settings.json"]
    );
    assert_eq!(
        report_install(
            &vec!["PreToolUse".to_string(), "SessionStart".to_string()],
            &file,
            "the agent"
        ),
        vec![
            "installed PreToolUse + SessionStart hook(s) in /w/conf/settings.json",
            "every mutating tool call in the agent will now checkpoint this workspace",
        ]
    );
    assert_eq!(
        report_install(&vec!["SessionStart".to_string()], &file, "x")[0],
        "installed SessionStart hook(s) in /w/conf/settings.json"
    );
}
