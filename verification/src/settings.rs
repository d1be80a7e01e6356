//! The hooks in the agent's settings.
//!
//! Installing the hooks adds an entry for each event that has none of this
//! program yet, and leaves everything else in the settings as it is.

use crate::error::{Error, ErrorView};
use crate::json::{
    alike, alike_to, fields, integers_only, integers_to, items, json_parsed, json_pretty,
    lemma_fields_without, lemma_last_field, nests, Json, JsonView, MAX_DEPTH,
};
use crate::path::{FsPath, PathView};
use crate::store::Store;
use crate::text::{blank, contains, has_part, is_blank, joined, same_text, texts, white_space};
use vstd::prelude::*;

verus! {

/// The tools that the hook is run before.
pub const MATCHER: &'static str = "Bash|Edit|Write|MultiEdit|NotebookEdit";

/// The directory in a workspace that belongs to the agent that the command `agent`
/// starts.
pub open spec fn own_dir(agent: Seq<char>) -> Seq<char> {
    "."@ + agent
}

/// The settings of the agent, from the workspace.
pub open spec fn settings_file(agent: Seq<char>) -> Seq<char> {
    own_dir(agent) + "/settings.json"@
}

/// Where the settings of the agent are, in the workspace at `root`.
pub open spec fn settings_at(root: PathView, agent: Seq<char>) -> PathView {
    root.entry(own_dir(agent)).entry("settings.json"@)
}

fn own_dir_name(agent: &str) -> (r: String)
    ensures
        r@ == own_dir(agent@),
{
    let mut r = ".".to_owned();
    r.append(agent);
    r
}

/// The settings of the agent, from the workspace.
pub fn settings_name(agent: &str) -> (r: String)
    ensures
        r@ == settings_file(agent@),
{
    let mut r = own_dir_name(agent);
    r.append("/settings.json");
    r
}

/// Where the settings of the agent are, in the workspace of the store.
pub fn settings_path(store: &Store, agent: &str) -> (r: FsPath)
    ensures
        r@ == settings_at(store.root@, agent@),
{
    let dir = own_dir_name(agent);
    store.root.entry(dir.as_str()).entry("settings.json")
}

/// Whether a hook runs this program: its command names it, or is the one that is
/// being installed.
pub open spec fn is_ours(hook: JsonView, command: Seq<char>) -> bool {
    match hook.field_text("command"@) {
        Some(c) => has_part(c, "timefork"@) || c == command,
        None => false,
    }
}

/// Whether one of the hooks runs this program.
pub open spec fn any_ours(hooks: Seq<JsonView>, command: Seq<char>) -> bool {
    exists|i: int| 0 <= i < hooks.len() && is_ours(#[trigger] hooks[i], command)
}

/// Whether an entry has a hook that runs this program.
pub open spec fn entry_is_ours(entry: JsonView, command: Seq<char>) -> bool {
    match entry.field("hooks"@) {
        Some(JsonView::Array(hooks)) => any_ours(hooks, command),
        _ => false,
    }
}

/// Whether one of the entries for an event has a hook that runs this program.
pub open spec fn is_installed(entries: Seq<JsonView>, command: Seq<char>) -> bool {
    exists|i: int| 0 <= i < entries.len() && entry_is_ours(#[trigger] entries[i], command)
}

/// The hook that runs `command`.
pub open spec fn hook_of(command: Seq<char>) -> JsonView {
    JsonView::Object(
        Map::<Seq<char>, JsonView>::empty().insert("type"@, JsonView::Text("command"@)).insert(
            "command"@,
            JsonView::Text(command),
        ),
    )
}

/// The entry that runs `command`, for the tools that `matcher` names.
pub open spec fn entry_of(command: Seq<char>, matcher: Option<Seq<char>>) -> JsonView {
    let m = Map::<Seq<char>, JsonView>::empty().insert(
        "hooks"@,
        JsonView::Array(seq![hook_of(command)]),
    );
    match matcher {
        Some(x) => JsonView::Object(m.insert("matcher"@, JsonView::Text(x))),
        None => JsonView::Object(m),
    }
}

/// The hooks with an entry for `event`, and whether it was added.
pub open spec fn with_event(
    hooks: JsonView,
    event: Seq<char>,
    matcher: Option<Seq<char>>,
    command: Seq<char>,
) -> Result<(JsonView, bool), ErrorView> {
    match hooks {
        JsonView::Object(m) => match hooks.field(event) {
            Some(JsonView::Array(entries)) => if is_installed(entries, command) {
                Ok((hooks, false))
            } else {
                Ok(
                    (
                        JsonView::Object(
                            m.insert(
                                event,
                                JsonView::Array(entries.push(entry_of(command, matcher))),
                            ),
                        ),
                        true,
                    ),
                )
            },
            Some(_) => Err(ErrorView::EventNotArray(event)),
            None => Ok(
                (
                    JsonView::Object(
                        m.insert(event, JsonView::Array(seq![entry_of(command, matcher)])),
                    ),
                    true,
                ),
            ),
        },
        _ => Err(ErrorView::HooksNotObject),
    }
}

/// The hooks with an entry for each event, and the events that one was added for.
pub open spec fn with_events(hooks: JsonView, command: Seq<char>) -> Result<
    (JsonView, Seq<Seq<char>>),
    ErrorView,
> {
    match with_event(hooks, "PreToolUse"@, Some(MATCHER@), command) {
        Err(e) => Err(e),
        Ok((first, a)) => match with_event(first, "SessionStart"@, None, command) {
            Err(e) => Err(e),
            Ok((both, b)) => Ok((both, added(a, b))),
        },
    }
}

/// The events that an entry was added for.
pub open spec fn added(before_tools: bool, at_start: bool) -> Seq<Seq<char>> {
    let a = if before_tools {
        seq!["PreToolUse"@]
    } else {
        Seq::empty()
    };
    if at_start {
        a.push("SessionStart"@)
    } else {
        a
    }
}

/// The settings with the hooks installed, and the events that an entry was added
/// for. The settings are those in the file `file`.
pub open spec fn installed(settings: JsonView, command: Seq<char>, file: Seq<char>) -> Result<
    (JsonView, Seq<Seq<char>>),
    ErrorView,
> {
    match settings {
        JsonView::Object(m) => {
            let hooks = match settings.field("hooks"@) {
                Some(h) => h,
                None => JsonView::Object(Map::empty()),
            };
            match with_events(hooks, command) {
                Err(e) => Err(e),
                Ok((h, events)) => Ok((JsonView::Object(m.insert("hooks"@, h)), events)),
            }
        },
        _ => Err(ErrorView::SettingsNotObject(file)),
    }
}

proof fn lemma_items(v: Seq<Json>)
    ensures
        items(v).len() == v.len(),
        forall|i: int| 0 <= i < v.len() ==> #[trigger] items(v)[i] == v[i]@,
    decreases v.len(),
{
    if v.len() > 0 {
        lemma_items(v.drop_last());
        assert forall|i: int| 0 <= i < v.len() implies #[trigger] items(v)[i] == v[i]@ by {
            if i < v.len() - 1 {
                assert(items(v.drop_last())[i] == v.drop_last()[i]@);
            }
        }
    }
}

fn hook_is_ours(hook: &Json, command: &str) -> (r: bool)
    ensures
        r == is_ours(hook@, command@),
{
    match hook.field_text("command") {
        Some(c) => contains(c, "timefork") || same_text(c, command),
        None => false,
    }
}

fn ours_in_entry(entry: &Json, command: &str) -> (r: bool)
    ensures
        r == entry_is_ours(entry@, command@),
{
    match entry.field("hooks") {
        Some(Json::Array(hooks)) => {
            let mut i: usize = 0;
            proof {
                lemma_items(hooks@);
            }
            while i < hooks.len()
                invariant
                    i <= hooks@.len(),
                    items(hooks@).len() == hooks@.len(),
                    forall|k: int| 0 <= k < hooks@.len() ==> #[trigger] items(hooks@)[k] == hooks@[k]@,
                    forall|k: int| 0 <= k < i ==> !is_ours(#[trigger] items(hooks@)[k], command@),
                    entry@.field("hooks"@) == Some(JsonView::Array(items(hooks@))),
                decreases hooks@.len() - i,
            {
                if hook_is_ours(&hooks[i], command) {
                    assert(is_ours(items(hooks@)[i as int], command@));
                    return true;
                }
                i += 1;
            }
            false
        },
        _ => false,
    }
}

fn ours_in(entries: &Vec<Json>, command: &str) -> (r: bool)
    ensures
        r == is_installed(items(entries@), command@),
{
    let mut i: usize = 0;
    proof {
        lemma_items(entries@);
    }
    while i < entries.len()
        invariant
            i <= entries@.len(),
            items(entries@).len() == entries@.len(),
            forall|k: int| 0 <= k < entries@.len() ==> #[trigger] items(entries@)[k] == entries@[k]@,
            forall|k: int| 0 <= k < i ==> !entry_is_ours(#[trigger] items(entries@)[k], command@),
        decreases entries@.len() - i,
    {
        if ours_in_entry(&entries[i], command) {
            assert(entry_is_ours(items(entries@)[i as int], command@));
            return true;
        }
        i += 1;
    }
    false
}

fn hook_for(command: &str) -> (r: Json)
    ensures
        r@ == hook_of(command@),
{
    let v = set_field(Vec::new(), "type", Json::Text("command".to_owned()));
    let v = set_field(v, "command", Json::Text(command.to_owned()));
    Json::Object(v)
}

fn entry_for(command: &str, matcher: Option<&str>) -> (r: Json)
    ensures
        r@ == entry_of(
            command@,
            match matcher {
                Some(m) => Some(m@),
                None => None,
            },
        ),
{
    let hook = hook_for(command);
    let mut hooks: Vec<Json> = Vec::new();
    hooks.push(hook);
    proof {
        lemma_items(hooks@);
        assert(items(hooks@) =~= seq![hook_of(command@)]);
    }
    let v = set_field(Vec::new(), "hooks", Json::Array(hooks));
    match matcher {
        Some(m) => Json::Object(set_field(v, "matcher", Json::Text(m.to_owned()))),
        None => Json::Object(v),
    }
}

proof fn lemma_fields_removed(v: Seq<(String, Json)>, i: int)
    requires
        0 <= i < v.len(),
    ensures
        fields(v.remove(i)).remove(v[i].0@) == fields(v).remove(v[i].0@),
    decreases v.len(),
{
    let name = v[i].0@;
    if i == v.len() - 1 {
        assert(v.remove(i) =~= v.drop_last());
        assert(fields(v.remove(i)).remove(name) =~= fields(v).remove(name));
    } else {
        let t = v.drop_last();
        assert(t[i] == v[i]);
        lemma_fields_removed(t, i);
        assert(v.remove(i).drop_last() =~= t.remove(i));
        assert(v.remove(i).last() == v.last());
        let (a, b) = (fields(t.remove(i)), fields(t));
        let (k, x) = (v.last().0@, v.last().1@);
        if k == name {
            assert(a.insert(k, x).remove(name) =~= a.remove(name));
            assert(b.insert(k, x).remove(name) =~= b.remove(name));
        } else {
            assert(a.insert(k, x).remove(name) =~= a.remove(name).insert(k, x));
            assert(b.insert(k, x).remove(name) =~= b.remove(name).insert(k, x));
        }
    }
}

/// The fields without those called `name`, as far as they count, and the value of
/// that field.
fn take_field(v: Vec<(String, Json)>, name: &str) -> (r: (Vec<(String, Json)>, Option<Json>))
    ensures
        fields(r.0@).remove(name@) == fields(v@).remove(name@),
        match r.1 {
            Some(x) => fields(v@).contains_key(name@) && x@ == fields(v@)[name@],
            None => !fields(v@).contains_key(name@),
        },
{
    let mut i: usize = v.len();
    while i > 0
        invariant
            i <= v@.len(),
            forall|k: int| i <= k < v@.len() ==> (#[trigger] v@[k]).0@ != name@,
        decreases i,
    {
        i -= 1;
        if same_text(v[i].0.as_str(), name) {
            proof {
                lemma_last_field(v@, name@, i as int);
                lemma_fields_removed(v@, i as int);
            }
            let mut v = v;
            let (_, x) = v.remove(i);
            return (v, Some(x));
        }
    }
    proof {
        lemma_fields_without(v@, name@);
    }
    (v, None)
}

/// The fields with the value of the one called `name` set.
fn set_field(rest: Vec<(String, Json)>, name: &str, x: Json) -> (r: Vec<(String, Json)>)
    ensures
        fields(r@) == fields(rest@).insert(name@, x@),
{
    let mut r = rest;
    r.push((name.to_owned(), x));
    assert(r@.drop_last() =~= rest@);
    r
}

proof fn lemma_set_after_take(
    before: Map<Seq<char>, JsonView>,
    rest: Map<Seq<char>, JsonView>,
    name: Seq<char>,
    x: JsonView,
)
    requires
        rest.remove(name) == before.remove(name),
    ensures
        rest.insert(name, x) == before.insert(name, x),
{
    assert(rest.insert(name, x) =~= rest.remove(name).insert(name, x));
    assert(before.insert(name, x) =~= before.remove(name).insert(name, x));
}

fn add_event(hooks: Json, event: &str, matcher: Option<&str>, command: &str) -> (r: Result<
    (Json, bool),
    Error,
>)
    ensures
        ({
            let m = match matcher {
                Some(x) => Some(x@),
                None => None,
            };
            match r {
                Ok((h, new)) => with_event(hooks@, event@, m, command@) == Ok::<
                    (JsonView, bool),
                    ErrorView,
                >((h@, new)),
                Err(e) => with_event(hooks@, event@, m, command@) == Err::<
                    (JsonView, bool),
                    ErrorView,
                >(e@),
            }
        }),
{
    match hooks {
        Json::Object(v) => {
            let ghost before = fields(v@);
            let (rest, found) = take_field(v, event);
            let mut entries: Vec<Json> = match found {
                Some(Json::Array(entries)) => entries,
                Some(_) => {
                    return Err(Error::EventNotArray(event.to_owned()));
                },
                None => Vec::new(),
            };
            let ghost old_entries = items(entries@);
            if ours_in(&entries, command) {
                let all = set_field(rest, event, Json::Array(entries));
                proof {
                    lemma_set_after_take(
                        before,
                        fields(rest@),
                        event@,
                        JsonView::Array(old_entries),
                    );
                    assert(before.insert(event@, JsonView::Array(old_entries)) =~= before);
                }
                return Ok((Json::Object(all), false));
            }
            let ghost was = entries@;
            let entry = entry_for(command, matcher);
            entries.push(entry);
            let ghost now = items(entries@);
            proof {
                assert(entries@.drop_last() =~= was);
                assert(now =~= old_entries.push(entry@));
                if found is None {
                    assert(old_entries =~= Seq::empty());
                    assert(now =~= seq![entry@]);
                }
            }
            let all = set_field(rest, event, Json::Array(entries));
            proof {
                lemma_set_after_take(before, fields(rest@), event@, JsonView::Array(now));
            }
            Ok((Json::Object(all), true))
        },
        _ => Err(Error::HooksNotObject),
    }
}

/// Installs the hooks, which run `command`, in the settings, which are those in the
/// file `file`. Gives the settings, and the events that an entry was added for.
pub fn install(settings: Json, command: &str, file: &str) -> (r: Result<
    (Json, Vec<String>),
    Error,
>)
    ensures
        match r {
            Ok((s, events)) => installed(settings@, command@, file@) == Ok::<
                (JsonView, Seq<Seq<char>>),
                ErrorView,
            >((s@, texts(events@))),
            Err(e) => installed(settings@, command@, file@) == Err::<
                (JsonView, Seq<Seq<char>>),
                ErrorView,
            >(e@),
        },
{
    match settings {
        Json::Object(v) => {
            let ghost before = fields(v@);
            let (rest, found) = take_field(v, "hooks");
            let hooks = match found {
                Some(h) => h,
                None => {
                    let h = Json::Object(Vec::new());
                    assert(h@ == JsonView::Object(Map::empty()));
                    h
                },
            };
            let (first, a) = match add_event(hooks, "PreToolUse", Some(MATCHER), command) {
                Ok(x) => x,
                Err(e) => {
                    return Err(e);
                },
            };
            let (both, b) = match add_event(first, "SessionStart", None, command) {
                Ok(x) => x,
                Err(e) => {
                    return Err(e);
                },
            };
            let mut events: Vec<String> = Vec::new();
            if a {
                events.push("PreToolUse".to_owned());
            }
            if b {
                events.push("SessionStart".to_owned());
            }
            let ghost h = both@;
            let all = set_field(rest, "hooks", both);
            proof {
                lemma_set_after_take(before, fields(rest@), "hooks"@, h);
                assert(texts(events@) =~= added(a, b));
            }
            Ok((Json::Object(all), events))
        },
        _ => Err(Error::SettingsNotObject(file.to_owned())),
    }
}

/// The settings that a file holds: none where there is no file or nothing in it, and
/// else what its text says, or the reason why it is not JSON.
pub open spec fn settings_in(raw: Option<Seq<char>>) -> Result<JsonView, Seq<char>> {
    match raw {
        Some(s) => if blank(s) {
            Ok(JsonView::Object(Map::empty()))
        } else {
            json_parsed(s)
        },
        None => Ok(JsonView::Object(Map::empty())),
    }
}

/// The command that runs the hook, where `exe` is this program.
pub open spec fn hook_command(exe: Option<Seq<char>>) -> Seq<char> {
    match exe {
        Some(p) => p + " hook"@,
        None => "timefork"@ + " hook"@,
    }
}

/// The settings that a file holds, where there is one: `raw` is its text.
pub fn read_settings(raw: Option<&str>) -> (r: Result<Json, Error>)
    ensures
        ({
            let settings = settings_in(
                match raw {
                    Some(s) => Some(s@),
                    None => None,
                },
            );
            match r {
                Ok(v) => settings == Ok::<JsonView, Seq<char>>(v@) && nests(v@, MAX_DEPTH as nat),
                Err(e) => settings matches Err(why) && e@ == ErrorView::BadJson(why),
            }
        }),
{
    let none = Json::Object(Vec::new());
    assert(none@ == JsonView::Object(Map::empty()));
    match raw {
        Some(s) => if is_blank(s) {
            Ok(none)
        } else {
            Json::parse(s)
        },
        None => Ok(none),
    }
}

/// The command that runs the hook, where `exe` is this program.
pub fn command_for(exe: Option<&str>) -> (r: String)
    ensures
        r@ == hook_command(
            match exe {
                Some(p) => Some(p@),
                None => None,
            },
        ),
{
    let mut r = match exe {
        Some(p) => p.to_owned(),
        None => "timefork".to_owned(),
    };
    r.append(" hook");
    r
}

/// Installs the hooks in the settings: `raw` is the text of the file `file`, where
/// there is one, and `exe` is this program. Gives the text for the file, and the
/// events that an entry was added for. A text that is neither blank nor JSON is refused.
/// Where the text for the file is read again, nothing is added to it; and it is read as
/// what was written, where all numbers in the settings are integers.
pub fn install_hooks(raw: Option<&str>, exe: Option<&str>, file: &str) -> (r: Result<
    (String, Vec<String>),
    Error,
>)
    ensures
        ({
            let settings = settings_in(
                match raw {
                    Some(s) => Some(s@),
                    None => None,
                },
            );
            let command = hook_command(
                match exe {
                    Some(p) => Some(p@),
                    None => None,
                },
            );
            match settings {
                Err(why) => r matches Err(e) && e@ == ErrorView::BadJson(why),
                Ok(v) => match installed(v, command, file@) {
                    Err(why) => r matches Err(e) && e@ == why,
                    Ok((now, events)) => {
                        &&& r matches Ok(x)
                        &&& x.0@ == json_pretty(now).push('\n')
                        &&& texts(x.1@) == events
                        &&& integers_only(v) ==> settings_in(Some(x.0@)) == Ok::<
                            JsonView,
                            Seq<char>,
                        >(now)
                        &&& settings_in(Some(x.0@)) matches Ok(w) ==> alike(now, w) && installed(
                            w,
                            command,
                            file@,
                        ) == Ok::<(JsonView, Seq<Seq<char>>), ErrorView>((w, Seq::empty()))
                    },
                },
            }
        }),
{
    let settings = match read_settings(raw) {
        Ok(v) => v,
        Err(e) => {
            return Err(e);
        },
    };
    let command = command_for(exe);
    let ghost was = settings@;
    match install(settings, command.as_str(), file) {
        Err(e) => Err(e),
        Ok((v, events)) => {
            let mut text = v.pretty();
            let ghost before = text@;
            text.push('\n');
            proof {
                let i = choose|i: int| 0 <= i < before.len() && !white_space(#[trigger] before[i]);
                assert(!white_space(text@[i]));
                lemma_install_nests(was, command@, file@, MAX_DEPTH as nat);
                if integers_only(was) {
                    install_keeps_integers(was, command@, file@);
                }
                if let Ok(w) = settings_in(Some(text@)) {
                    install_again_adds_nothing(was, command@, file@, w);
                }
            }
            Ok((text, events))
        },
    }
}

/// What is said once the hooks are installed in the file at `path`: the `events`
/// that they were installed for, and who they are for.
pub open spec fn install_report(
    events: Seq<Seq<char>>,
    path: PathView,
    agent: Seq<char>,
) -> Seq<Seq<char>> {
    if events.len() == 0 {
        seq!["hooks already installed in "@ + path.shown()]
    } else {
        seq![
            "installed "@ + joined(events, " + "@) + " hook(s) in "@ + path.shown(),
            "every mutating tool call in "@ + agent + " will now checkpoint this workspace"@,
        ]
    }
}

/// What is said once the hooks are installed.
pub fn report_install(events: &Vec<String>, path: &FsPath, agent: &str) -> (r: Vec<String>)
    ensures
        texts(r@) == install_report(texts(events@), path@, agent@),
{
    let shown = path.display();
    let mut r: Vec<String> = Vec::new();
    if events.len() == 0 {
        let mut line = "hooks already installed in ".to_owned();
        line.append(shown.as_str());
        r.push(line);
    } else {
        let mut line = "installed ".to_owned();
        let names = join(events, " + ");
        line.append(names.as_str());
        line.append(" hook(s) in ");
        line.append(shown.as_str());
        r.push(line);
        let mut line = "every mutating tool call in ".to_owned();
        line.append(agent);
        line.append(" will now checkpoint this workspace");
        r.push(line);
    }
    assert(texts(r@) =~= install_report(texts(events@), path@, agent@));
    r
}

/// The texts one after the other, with `sep` between them.
fn join(parts: &Vec<String>, sep: &str) -> (r: String)
    ensures
        r@ == joined(texts(parts@), sep@),
{
    let ghost all = texts(parts@);
    let mut r = String::new();
    let mut i: usize = 0;
    assert(r@ =~= joined(all.take(0), sep@));
    while i < parts.len()
        invariant
            i <= parts@.len(),
            all == texts(parts@),
            r@ == joined(all.take(i as int), sep@),
        decreases parts@.len() - i,
    {
        let ghost before = r@;
        if i > 0 {
            r.append(sep);
        }
        r.append(parts[i].as_str());
        proof {
            assert(all.take(i + 1).drop_last() =~= all.take(i as int));
            assert(all.take(i + 1).last() == parts@[i as int]@);
            assert(r@ =~= joined(all.take(i + 1), sep@));
        }
        i += 1;
    }
    assert(all.take(i as int) =~= all);
    r
}

/// Whether what was installed with `command` is found when `later` is installed.
spec fn found_by(command: Seq<char>, later: Seq<char>) -> bool {
    later == command || has_part(command, "timefork"@)
}

/// The entry that was installed is found.
proof fn lemma_entry_is_found(command: Seq<char>, matcher: Option<Seq<char>>, later: Seq<char>)
    requires
        found_by(command, later),
    ensures
        entry_is_ours(entry_of(command, matcher), later),
{
    reveal_strlit("hooks");
    reveal_strlit("matcher");
    let hooks = seq![hook_of(command)];
    assert(hook_of(command).field_text("command"@) == Some(command));
    assert(is_ours(hooks[0], later));
    assert("hooks"@.len() != "matcher"@.len());
    assert(entry_of(command, matcher).field("hooks"@) == Some(JsonView::Array(hooks)));
}

/// What is found with one command is found with the other.
proof fn lemma_still_installed(entries: Seq<JsonView>, command: Seq<char>, later: Seq<char>)
    requires
        found_by(command, later),
        is_installed(entries, command),
    ensures
        is_installed(entries, later),
{
    let i = choose|i: int| 0 <= i < entries.len() && entry_is_ours(#[trigger] entries[i], command);
    match entries[i].field("hooks"@) {
        Some(JsonView::Array(hooks)) => {
            let k = choose|k: int| 0 <= k < hooks.len() && is_ours(#[trigger] hooks[k], command);
            assert(is_ours(hooks[k], later));
        },
        _ => {},
    }
    assert(entry_is_ours(entries[i], later));
}

/// Once an event has an entry, it is found, and nothing is added again.
proof fn lemma_event_found(
    hooks: JsonView,
    event: Seq<char>,
    matcher: Option<Seq<char>>,
    command: Seq<char>,
    later: Seq<char>,
)
    requires
        found_by(command, later),
        with_event(hooks, event, matcher, command) is Ok,
    ensures
        ({
            let h = with_event(hooks, event, matcher, command)->Ok_0.0;
            with_event(h, event, matcher, later) == Ok::<(JsonView, bool), ErrorView>((h, false))
        }),
{
    let entry = entry_of(command, matcher);
    let h = with_event(hooks, event, matcher, command)->Ok_0.0;
    lemma_entry_is_found(command, matcher, later);
    match hooks.field(event) {
        Some(JsonView::Array(entries)) => {
            if is_installed(entries, command) {
                lemma_still_installed(entries, command, later);
            } else {
                let all = entries.push(entry);
                assert(entry_is_ours(all[entries.len() as int], later));
                assert(h.field(event) == Some(JsonView::Array(all)));
            }
        },
        _ => {
            let all = seq![entry];
            assert(entry_is_ours(all[0], later));
            assert(h.field(event) == Some(JsonView::Array(all)));
        },
    }
}

/// An entry for one event leaves the other events as they are.
proof fn lemma_other_events(
    hooks: JsonView,
    event: Seq<char>,
    matcher: Option<Seq<char>>,
    command: Seq<char>,
    other: Seq<char>,
)
    requires
        with_event(hooks, event, matcher, command) is Ok,
        other != event,
    ensures
        with_event(hooks, event, matcher, command)->Ok_0.0 is Object,
        with_event(hooks, event, matcher, command)->Ok_0.0.field(other) == hooks.field(other),
{
}

/// The hooks in some settings.
pub open spec fn hooks_in(settings: JsonView) -> JsonView {
    match settings.field("hooks"@) {
        Some(h) => h,
        None => JsonView::Object(Map::empty()),
    }
}

/// Installing the hooks a second time changes nothing.
pub proof fn install_is_idempotent(settings: JsonView, command: Seq<char>, file: Seq<char>)
    requires
        installed(settings, command, file) is Ok,
    ensures
        ({
            let v = installed(settings, command, file)->Ok_0.0;
            installed(v, command, file) == Ok::<(JsonView, Seq<Seq<char>>), ErrorView>(
                (v, Seq::empty()),
            )
        }),
{
    lemma_install_again(settings, command, command, file);
}

/// A program that was moved installs nothing again, where the command that was
/// installed names it.
pub proof fn moved_program_is_recognized(
    settings: JsonView,
    command: Seq<char>,
    later: Seq<char>,
    file: Seq<char>,
)
    requires
        has_part(command, "timefork"@),
        installed(settings, command, file) is Ok,
    ensures
        ({
            let v = installed(settings, command, file)->Ok_0.0;
            installed(v, later, file) == Ok::<(JsonView, Seq<Seq<char>>), ErrorView>(
                (v, Seq::empty()),
            )
        }),
{
    lemma_install_again(settings, command, later, file);
}

proof fn lemma_install_again(
    settings: JsonView,
    command: Seq<char>,
    later: Seq<char>,
    file: Seq<char>,
)
    requires
        found_by(command, later),
        installed(settings, command, file) is Ok,
    ensures
        ({
            let v = installed(settings, command, file)->Ok_0.0;
            installed(v, later, file) == Ok::<(JsonView, Seq<Seq<char>>), ErrorView>(
                (v, Seq::empty()),
            )
        }),
{
    let (a, b) = ("PreToolUse"@, "SessionStart"@);
    reveal_strlit("PreToolUse");
    reveal_strlit("SessionStart");
    assert(a.len() != b.len());
    let v = installed(settings, command, file)->Ok_0.0;
    let h0 = hooks_in(settings);
    let h1 = with_event(h0, a, Some(MATCHER@), command)->Ok_0.0;
    let h2 = with_event(h1, b, None, command)->Ok_0.0;
    lemma_event_found(h0, a, Some(MATCHER@), command, later);
    lemma_event_found(h1, b, None, command, later);
    lemma_other_events(h1, b, None, command, a);
    assert(v.field("hooks"@) == Some(h2));
    assert(with_event(h2, a, Some(MATCHER@), later) == Ok::<(JsonView, bool), ErrorView>(
        (h2, false),
    ));
    assert(with_events(h2, later) == Ok::<(JsonView, Seq<Seq<char>>), ErrorView>(
        (h2, Seq::empty()),
    ));
    match v {
        JsonView::Object(m) => {
            assert(m.insert("hooks"@, h2) =~= m);
        },
        _ => {},
    }
}

/// Once the hooks are installed, each of the two events has an entry that runs this
/// program.
pub proof fn install_covers_both_events(settings: JsonView, command: Seq<char>, file: Seq<char>)
    requires
        installed(settings, command, file) is Ok,
    ensures
        ({
            let hooks = hooks_in(installed(settings, command, file)->Ok_0.0);
            &&& hooks.field("PreToolUse"@) matches Some(JsonView::Array(e)) && is_installed(
                e,
                command,
            )
            &&& hooks.field("SessionStart"@) matches Some(JsonView::Array(e)) && is_installed(
                e,
                command,
            )
        }),
{
    install_is_idempotent(settings, command, file);
    let v = installed(settings, command, file)->Ok_0.0;
    let h = hooks_in(v);
    assert(with_events(h, command)->Ok_0.1 == Seq::<Seq<char>>::empty());
    let x = with_event(h, "PreToolUse"@, Some(MATCHER@), command)->Ok_0;
    let y = with_event(x.0, "SessionStart"@, None, command)->Ok_0;
    assert(added(x.1, y.1).len() == 0);
}

/// Installing the hooks keeps everything else in the settings: other settings, the
/// hooks for other events, and the entries that the two events had.
pub proof fn install_keeps_settings(
    settings: JsonView,
    command: Seq<char>,
    file: Seq<char>,
    name: Seq<char>,
    event: Seq<char>,
)
    requires
        installed(settings, command, file) is Ok,
    ensures
        ({
            let v = installed(settings, command, file)->Ok_0.0;
            &&& name != "hooks"@ ==> v.field(name) == settings.field(name)
            &&& event != "PreToolUse"@ && event != "SessionStart"@ ==> hooks_in(v).field(event)
                == hooks_in(settings).field(event)
            &&& hooks_in(settings).field(event) matches Some(JsonView::Array(before))
                ==> hooks_in(v).field(event) matches Some(JsonView::Array(now))
                && before.is_prefix_of(now)
        }),
{
    let (a, b) = ("PreToolUse"@, "SessionStart"@);
    let v = installed(settings, command, file)->Ok_0.0;
    let h0 = hooks_in(settings);
    let h1 = with_event(h0, a, Some(MATCHER@), command)->Ok_0.0;
    let h2 = with_event(h1, b, None, command)->Ok_0.0;
    assert(v.field("hooks"@) == Some(h2));
    lemma_event_grows(h0, a, Some(MATCHER@), command, event);
    lemma_event_grows(h1, b, None, command, event);
    if let Some(JsonView::Array(x)) = h0.field(event) {
        if let Some(JsonView::Array(y)) = h1.field(event) {
            if let Some(JsonView::Array(z)) = h2.field(event) {
                assert(y.take(x.len() as int) =~= x);
                assert(z.take(y.len() as int) =~= y);
                assert(z.take(x.len() as int) =~= x);
            }
        }
    }
}

proof fn lemma_event_grows(
    hooks: JsonView,
    event: Seq<char>,
    matcher: Option<Seq<char>>,
    command: Seq<char>,
    other: Seq<char>,
)
    requires
        with_event(hooks, event, matcher, command) is Ok,
    ensures
        ({
            let h = with_event(hooks, event, matcher, command)->Ok_0.0;
            &&& other != event ==> h.field(other) == hooks.field(other)
            &&& hooks.field(other) matches Some(JsonView::Array(before)) ==> h.field(
                other,
            ) matches Some(JsonView::Array(now)) && before.is_prefix_of(now)
        }),
{
    let h = with_event(hooks, event, matcher, command)->Ok_0.0;
    if let Some(JsonView::Array(before)) = hooks.field(other) {
        assert(before.take(before.len() as int) =~= before);
        if other == event && !is_installed(before, command) {
            let now = before.push(entry_of(command, matcher));
            assert(now.take(before.len() as int) =~= before);
            assert(h.field(other) == Some(JsonView::Array(now)));
        }
    }
}

/// An entry for an event is nested three deep, and has no numbers.
proof fn lemma_entry(command: Seq<char>, matcher: Option<Seq<char>>, depth: nat)
    ensures
        depth >= 3 ==> nests(entry_of(command, matcher), depth),
        integers_to(entry_of(command, matcher), depth),
{
    reveal_with_fuel(nests, 4);
    reveal_with_fuel(integers_to, 4);
    reveal_strlit("command");
    reveal_strlit("type");
    reveal_strlit("hooks");
    reveal_strlit("matcher");
}

proof fn lemma_event_nests(
    hooks: JsonView,
    event: Seq<char>,
    matcher: Option<Seq<char>>,
    command: Seq<char>,
    depth: nat,
)
    requires
        with_event(hooks, event, matcher, command) is Ok,
    ensures
        ({
            let h = with_event(hooks, event, matcher, command)->Ok_0.0;
            &&& depth >= 5 && nests(hooks, depth) ==> nests(h, depth)
            &&& integers_to(hooks, depth) ==> integers_to(h, depth)
        }),
{
    let h = with_event(hooks, event, matcher, command)->Ok_0.0;
    let entry = entry_of(command, matcher);
    let old_entries = match hooks.field(event) {
        Some(JsonView::Array(e)) => e,
        _ => Seq::empty(),
    };
    let now = JsonView::Array(old_entries.push(entry));
    assert(old_entries.push(entry) =~= old_entries + seq![entry]);
    assert(Seq::empty().push(entry) =~= seq![entry]);
    if with_event(hooks, event, matcher, command)->Ok_0.1 {
        let m = hooks->Object_0;
        let n = h->Object_0;
        assert(n =~= m.insert(event, now));
        if depth >= 5 && nests(hooks, depth) {
            let k = (depth - 1) as nat;
            lemma_entry(command, matcher, (k - 1) as nat);
            if m.contains_key(event) {
                assert(nests(m[event], k));
            }
            assert(nests(now, k)) by {
                assert forall|i: int| 0 <= i < old_entries.push(entry).len() implies nests(
                    #[trigger] old_entries.push(entry)[i],
                    (k - 1) as nat,
                ) by {
                    if i < old_entries.len() {
                        assert(nests(old_entries[i], (k - 1) as nat));
                    }
                }
            }
            assert forall|x: Seq<char>| #[trigger] n.contains_key(x) implies nests(n[x], k) by {
                if x != event {
                    assert(m.contains_key(x));
                }
            }
        }
        if depth > 0 && integers_to(hooks, depth) {
            let k = (depth - 1) as nat;
            if m.contains_key(event) {
                assert(integers_to(m[event], k));
            }
            assert(integers_to(now, k)) by {
                if k > 0 {
                    lemma_entry(command, matcher, (k - 1) as nat);
                    assert forall|i: int| 0 <= i < old_entries.push(entry).len() implies integers_to(
                        #[trigger] old_entries.push(entry)[i],
                        (k - 1) as nat,
                    ) by {
                        if i < old_entries.len() {
                            assert(integers_to(old_entries[i], (k - 1) as nat));
                        }
                    }
                }
            }
            assert forall|x: Seq<char>| #[trigger] n.contains_key(x) implies integers_to(
                n[x],
                k,
            ) by {
                if x != event {
                    assert(m.contains_key(x));
                }
            }
        }
    }
}

/// Installing the hooks nests nothing deeper than six deep that was not.
proof fn lemma_install_nests(
    settings: JsonView,
    command: Seq<char>,
    file: Seq<char>,
    depth: nat,
)
    requires
        installed(settings, command, file) is Ok,
    ensures
        ({
            let v = installed(settings, command, file)->Ok_0.0;
            &&& depth >= 6 && nests(settings, depth) ==> nests(v, depth)
            &&& integers_to(settings, depth) ==> integers_to(v, depth)
        }),
{
    let (a, b) = ("PreToolUse"@, "SessionStart"@);
    let name = "hooks"@;
    let v = installed(settings, command, file)->Ok_0.0;
    let h0 = hooks_in(settings);
    let h1 = with_event(h0, a, Some(MATCHER@), command)->Ok_0.0;
    let h2 = with_event(h1, b, None, command)->Ok_0.0;
    let m = settings->Object_0;
    let n = v->Object_0;
    assert(n == m.insert(name, h2));
    if depth > 0 {
        let k = (depth - 1) as nat;
        lemma_event_nests(h0, a, Some(MATCHER@), command, k);
        lemma_event_nests(h1, b, None, command, k);
        if nests(settings, depth) && depth >= 6 {
            if m.contains_key(name) {
                assert(nests(m[name], k));
            }
            assert(nests(h0, k));
            assert forall|x: Seq<char>| #[trigger] n.contains_key(x) implies nests(n[x], k) by {
                if x != name {
                    assert(m.contains_key(x));
                }
            }
        }
        if integers_to(settings, depth) {
            if m.contains_key(name) {
                assert(integers_to(m[name], k));
            }
            assert(integers_to(h0, k));
            assert forall|x: Seq<char>| #[trigger] n.contains_key(x) implies integers_to(
                n[x],
                k,
            ) by {
                if x != name {
                    assert(m.contains_key(x));
                }
            }
        }
    }
}

/// Installing the hooks in settings whose numbers are integers adds no other number.
pub proof fn install_keeps_integers(settings: JsonView, command: Seq<char>, file: Seq<char>)
    requires
        installed(settings, command, file) is Ok,
        integers_only(settings),
    ensures
        integers_only(installed(settings, command, file)->Ok_0.0),
{
    let v = installed(settings, command, file)->Ok_0.0;
    assert forall|depth: nat| #[trigger] integers_to(v, depth) by {
        assert(integers_to(settings, depth));
        lemma_install_nests(settings, command, file, depth);
    }
}

/// Where one value has the text `s` in the field `name`, so has one that is alike.
proof fn lemma_alike_text(v: JsonView, w: JsonView, name: Seq<char>, depth: nat)
    requires
        depth > 0,
        alike_to(v, w, depth),
    ensures
        v.field_text(name) == w.field_text(name),
{
    if let JsonView::Object(m) = v {
        if m.contains_key(name) {
            assert(alike_to(m[name], w->Object_0[name], (depth - 1) as nat));
        }
    }
}

/// What an entry for an event is recognized by, entries that are alike have too.
proof fn lemma_alike_entries(v: Seq<JsonView>, w: Seq<JsonView>, command: Seq<char>)
    requires
        v.len() == w.len(),
        forall|i: int| 0 <= i < v.len() ==> alike_to(#[trigger] v[i], w[i], 3),
        is_installed(v, command),
    ensures
        is_installed(w, command),
{
    let i = choose|i: int| 0 <= i < v.len() && entry_is_ours(#[trigger] v[i], command);
    let name = "hooks"@;
    assert(alike_to(v[i], w[i], 3));
    let m = v[i]->Object_0;
    let n = w[i]->Object_0;
    assert(m.contains_key(name));
    assert(alike_to(m[name], n[name], 2));
    let a = m[name]->Array_0;
    let b = n[name]->Array_0;
    let k = choose|k: int| 0 <= k < a.len() && is_ours(#[trigger] a[k], command);
    assert(alike_to(a[k], b[k], 1));
    lemma_alike_text(a[k], b[k], "command"@, 1);
    assert(is_ours(b[k], command));
    assert(w[i].field(name) == Some(JsonView::Array(b)));
    assert(entry_is_ours(w[i], command));
}

/// An event that has an entry has one in hooks that are alike.
proof fn lemma_alike_event(
    v: JsonView,
    w: JsonView,
    event: Seq<char>,
    matcher: Option<Seq<char>>,
    command: Seq<char>,
)
    requires
        alike_to(v, w, 5),
        with_event(v, event, matcher, command) == Ok::<(JsonView, bool), ErrorView>((v, false)),
    ensures
        with_event(w, event, matcher, command) == Ok::<(JsonView, bool), ErrorView>((w, false)),
{
    let m = v->Object_0;
    let n = w->Object_0;
    assert(m.contains_key(event));
    assert(alike_to(m[event], n[event], 4));
    let a = m[event]->Array_0;
    let b = n[event]->Array_0;
    assert(w.field(event) == Some(JsonView::Array(b)));
    lemma_alike_entries(a, b, command);
}

/// Installing the hooks in settings that were installed, and are as they were but for
/// which numbers those are that are no integers, changes nothing.
pub proof fn install_again_adds_nothing(
    settings: JsonView,
    command: Seq<char>,
    file: Seq<char>,
    read: JsonView,
)
    requires
        installed(settings, command, file) is Ok,
        alike(installed(settings, command, file)->Ok_0.0, read),
    ensures
        installed(read, command, file) == Ok::<(JsonView, Seq<Seq<char>>), ErrorView>(
            (read, Seq::empty()),
        ),
{
    install_is_idempotent(settings, command, file);
    let (a, b) = ("PreToolUse"@, "SessionStart"@);
    let v = installed(settings, command, file)->Ok_0.0;
    let h = hooks_in(v);
    let name = "hooks"@;
    assert(v.field(name) is Some);
    let x = with_event(h, a, Some(MATCHER@), command)->Ok_0;
    let y = with_event(x.0, b, None, command)->Ok_0;
    assert(added(x.1, y.1).len() == 0);
    assert(alike_to(v, read, 6));
    let m = v->Object_0;
    let n = read->Object_0;
    assert(m.contains_key(name));
    let g = n[name];
    assert(alike_to(m[name], g, 5));
    lemma_alike_event(h, g, a, Some(MATCHER@), command);
    lemma_alike_event(h, g, b, None, command);
    assert(read.field(name) == Some(g));
    assert(n.insert(name, g) =~= n);
    assert(added(false, false) =~= Seq::empty());
}

/// Installing the hooks a second time writes the same text, where the text that was
/// written reads back.
pub proof fn install_again_writes_the_same(
    settings: JsonView,
    command: Seq<char>,
    file: Seq<char>,
    written: Seq<char>,
)
    requires
        installed(settings, command, file) is Ok,
        written == json_pretty(installed(settings, command, file)->Ok_0.0).push('\n'),
        settings_in(Some(written)) == Ok::<JsonView, Seq<char>>(
            installed(settings, command, file)->Ok_0.0,
        ),
    ensures
        ({
            let v = settings_in(Some(written))->Ok_0;
            &&& installed(v, command, file) == Ok::<(JsonView, Seq<Seq<char>>), ErrorView>(
                (v, Seq::empty()),
            )
            &&& json_pretty(v).push('\n') == written
        }),
{
    install_is_idempotent(settings, command, file);
}

} // verus!
