//! What installing the hooks makes of the agent's settings, field by field.

use crate::error::ErrorView;
use crate::json::{json_parsed, JsonView};
use crate::path::PathView;
use crate::settings::{
    any_ours, entry_is_ours, entry_of, hook_command, hook_of, install_keeps_settings,
    install_report, installed, is_installed, is_ours, own_dir, settings_at, settings_file,
    settings_in, with_event, MATCHER,
};
use crate::text::{blank, has_part, joined};
use vstd::prelude::*;
use vstd::utf8::encode_utf8;

verus! {

/// A hook is one of this program where its command has the name of the program in it, or
/// is the one that is installed; an entry is one where one of its hooks is; and the hooks
/// are installed for an event where one of its entries is.
pub proof fn hooks_are_found_by_their_command(entries: Seq<JsonView>, command: Seq<char>)
    ensures
        is_installed(entries, command) <==> exists|i: int, k: int|
            {
                &&& 0 <= i < entries.len()
                &&& entries[i].field("hooks"@) is Some
                &&& entries[i].field("hooks"@)->0 is Array
                &&& 0 <= k < entries[i].field("hooks"@)->0->Array_0.len()
                &&& (#[trigger] entries[i].field("hooks"@)->0->Array_0[k]).field_text("command"@)
                    matches Some(c)
                &&& has_part(c, "timefork"@) || c == command
            },
{
    if is_installed(entries, command) {
        let i = choose|i: int|
            0 <= i < entries.len() && entry_is_ours(#[trigger] entries[i], command);
        let hooks = entries[i].field("hooks"@)->0->Array_0;
        let k = choose|k: int| 0 <= k < hooks.len() && is_ours(#[trigger] hooks[k], command);
        assert(entries[i].field("hooks"@)->0->Array_0[k].field_text("command"@) is Some);
    }
    if exists|i: int, k: int|
        {
            &&& 0 <= i < entries.len()
            &&& entries[i].field("hooks"@) is Some
            &&& entries[i].field("hooks"@)->0 is Array
            &&& 0 <= k < entries[i].field("hooks"@)->0->Array_0.len()
            &&& (#[trigger] entries[i].field("hooks"@)->0->Array_0[k]).field_text("command"@)
                matches Some(c)
            &&& has_part(c, "timefork"@) || c == command
        } {
        let (i, k) = choose|i: int, k: int|
            {
                &&& 0 <= i < entries.len()
                &&& entries[i].field("hooks"@) is Some
                &&& entries[i].field("hooks"@)->0 is Array
                &&& 0 <= k < entries[i].field("hooks"@)->0->Array_0.len()
                &&& (#[trigger] entries[i].field("hooks"@)->0->Array_0[k]).field_text("command"@)
                    matches Some(c)
                &&& has_part(c, "timefork"@) || c == command
            };
        let hooks = entries[i].field("hooks"@)->0->Array_0;
        assert(is_ours(hooks[k], command));
        assert(any_ours(hooks, command));
        assert(entry_is_ours(entries[i], command));
    }
}

/// The entry that is installed has one hook, which runs the command, and is for the
/// tools that are named, if any are. Neither the entry nor the hook has any other field.
pub proof fn installed_entry_runs_the_command(command: Seq<char>, matcher: Option<Seq<char>>)
    ensures
        ({
            let e = entry_of(command, matcher);
            &&& e.field("hooks"@) matches Some(JsonView::Array(hooks))
            &&& hooks.len() == 1
            &&& hooks[0].field_text("type"@) == Some("command"@)
            &&& hooks[0].field_text("command"@) == Some(command)
            &&& match matcher {
                Some(m) => e.field("matcher"@) == Some(JsonView::Text(m)),
                None => e.field("matcher"@) is None,
            }
            &&& forall|name: Seq<char>| #[trigger]
                e.field(name) is Some ==> name == "hooks"@ || name == "matcher"@
            &&& forall|name: Seq<char>| #[trigger]
                hooks[0].field(name) is Some ==> name == "type"@ || name == "command"@
        }),
{
    reveal_strlit("hooks");
    reveal_strlit("matcher");
    reveal_strlit("type");
    reveal_strlit("command");
    assert("hooks"@.len() == 5 && "matcher"@.len() == 7);
    assert("type"@.len() == 4 && "command"@.len() == 7);
    let h = hook_of(command);
    assert(h.field("type"@) == Some(JsonView::Text("command"@)));
    assert(seq![h][0] == h);
}

/// What becomes of one event.
proof fn lemma_one_event(
    hooks: JsonView,
    event: Seq<char>,
    matcher: Option<Seq<char>>,
    command: Seq<char>,
    other: Seq<char>,
)
    requires
        with_event(hooks, event, matcher, command) is Ok,
    ensures
        ({
            let (h, new) = with_event(hooks, event, matcher, command)->Ok_0;
            let before = match hooks.field(event) {
                Some(JsonView::Array(e)) => e,
                _ => Seq::empty(),
            };
            &&& h is Object
            &&& new == !is_installed(before, command)
            &&& h.field(event) == Some(
                JsonView::Array(
                    if new {
                        before.push(entry_of(command, matcher))
                    } else {
                        before
                    },
                ),
            )
            &&& other != event ==> h.field(other) == hooks.field(other)
        }),
{
    let none = Seq::<JsonView>::empty();
    let entry = entry_of(command, matcher);
    assert(none.push(entry) =~= seq![entry]);
}

/// Installing the hooks looks at each of the two events alone. Where one of its hooks
/// has a command with the name of this program in it, or the command that is installed,
/// its entries stay as they are. Where none has, one entry comes behind them, which runs
/// the command before the tools that can change the workspace, or at every start of a
/// session; and the event is among those that are reported.
pub proof fn install_adds_what_is_missing(
    settings: JsonView,
    command: Seq<char>,
    file: Seq<char>,
    event: Seq<char>,
    before: Seq<JsonView>,
)
    requires
        installed(settings, command, file) is Ok,
        event == "PreToolUse"@ || event == "SessionStart"@,
        before == match settings.field("hooks"@) {
            Some(h) => match h.field(event) {
                Some(JsonView::Array(e)) => e,
                _ => Seq::empty(),
            },
            None => Seq::empty(),
        },
    ensures
        ({
            let (v, events) = installed(settings, command, file)->Ok_0;
            let found = exists|i: int, k: int|
                {
                    &&& 0 <= i < before.len()
                    &&& before[i].field("hooks"@) is Some
                    &&& before[i].field("hooks"@)->0 is Array
                    &&& 0 <= k < before[i].field("hooks"@)->0->Array_0.len()
                    &&& (#[trigger] before[i].field("hooks"@)->0->Array_0[k]).field_text(
                        "command"@,
                    ) matches Some(c)
                    &&& has_part(c, "timefork"@) || c == command
                };
            &&& v.field("hooks"@) matches Some(h)
            &&& h.field(event) matches Some(JsonView::Array(now))
            &&& found ==> now == before && !events.contains(event)
            &&& !found ==> {
                &&& events.contains(event)
                &&& now.len() == before.len() + 1
                &&& before.is_prefix_of(now)
                &&& now.last().field("hooks"@) matches Some(JsonView::Array(hooks))
                &&& hooks.len() == 1
                &&& hooks[0].field_text("type"@) == Some("command"@)
                &&& hooks[0].field_text("command"@) == Some(command)
                &&& event == "PreToolUse"@ ==> now.last().field_text("matcher"@) == Some(
                    "Bash|Edit|Write|MultiEdit|NotebookEdit"@,
                )
                &&& event == "SessionStart"@ ==> now.last().field("matcher"@) is None
                &&& forall|name: Seq<char>| #[trigger]
                    now.last().field(name) is Some ==> name == "hooks"@ || name == "matcher"@
                &&& forall|name: Seq<char>| #[trigger]
                    hooks[0].field(name) is Some ==> name == "type"@ || name == "command"@
            }
        }),
{
    let (a, b) = ("PreToolUse"@, "SessionStart"@);
    reveal_strlit("PreToolUse");
    reveal_strlit("SessionStart");
    assert(a.len() == 10 && b.len() == 12);
    let (v, events) = installed(settings, command, file)->Ok_0;
    let h0 = match settings.field("hooks"@) {
        Some(h) => h,
        None => JsonView::Object(Map::empty()),
    };
    let (h1, x) = with_event(h0, a, Some(MATCHER@), command)->Ok_0;
    let (h2, y) = with_event(h1, b, None, command)->Ok_0;
    lemma_one_event(h0, a, Some(MATCHER@), command, b);
    lemma_one_event(h1, b, None, command, a);
    assert(v.field("hooks"@) == Some(h2));
    hooks_are_found_by_their_command(before, command);
    let matcher = if event == a {
        Some(MATCHER@)
    } else {
        None
    };
    let entry = entry_of(command, matcher);
    installed_entry_runs_the_command(command, matcher);
    assert(before.push(entry).last() == entry);
    assert(before.push(entry).take(before.len() as int) =~= before);
    if x {
        assert(events[0] == a);
    }
    if y {
        assert(events.last() == b);
        assert(events[events.len() - 1] == b);
    }
    assert(events.contains(a) == x);
    assert(events.contains(b) == y);
}

/// Once the hooks are installed, each of the two events holds a hook whose command has
/// the name of this program in it, or is the one that was installed.
pub proof fn both_events_run_this_program(
    settings: JsonView,
    command: Seq<char>,
    file: Seq<char>,
    event: Seq<char>,
    now: Seq<JsonView>,
)
    requires
        installed(settings, command, file) is Ok,
        event == "PreToolUse"@ || event == "SessionStart"@,
        ({
            let v = installed(settings, command, file)->Ok_0.0;
            &&& v.field("hooks"@) matches Some(h)
            &&& h.field(event) == Some(JsonView::Array(now))
        }),
    ensures
        exists|i: int, k: int|
            {
                &&& 0 <= i < now.len()
                &&& now[i].field("hooks"@) is Some
                &&& now[i].field("hooks"@)->0 is Array
                &&& 0 <= k < now[i].field("hooks"@)->0->Array_0.len()
                &&& (#[trigger] now[i].field("hooks"@)->0->Array_0[k]).field_text("command"@)
                    matches Some(c)
                &&& has_part(c, "timefork"@) || c == command
            },
{
    let before = match settings.field("hooks"@) {
        Some(h) => match h.field(event) {
            Some(JsonView::Array(e)) => e,
            _ => Seq::empty(),
        },
        None => Seq::empty(),
    };
    install_adds_what_is_missing(settings, command, file, event, before);
    if now != before {
        let i = now.len() - 1;
        assert(now[i] == now.last());
        assert(now[i].field("hooks"@)->0->Array_0[0].field_text("command"@) == Some(command));
    }
}

/// The hooks are reported once for each event that an entry was added for, the tool calls
/// before the starts of sessions, and for no other event.
pub proof fn only_the_two_events_are_reported(
    settings: JsonView,
    command: Seq<char>,
    file: Seq<char>,
)
    requires
        installed(settings, command, file) is Ok,
    ensures
        ({
            let events = installed(settings, command, file)->Ok_0.1;
            &&& events.len() <= 2
            &&& forall|i: int|
                0 <= i < events.len() ==> #[trigger] events[i] == "PreToolUse"@ || events[i]
                    == "SessionStart"@
            &&& events.len() == 2 ==> events[0] == "PreToolUse"@ && events[1] == "SessionStart"@
            &&& installed(settings, command, file)->Ok_0.0 is Object
        }),
{
}

/// Settings are refused only where they, their hooks or the entries of one of the two
/// events are of another shape, and for that reason.
pub proof fn only_other_shapes_are_refused(
    settings: JsonView,
    command: Seq<char>,
    file: Seq<char>,
)
    ensures
        ({
            let r = installed(settings, command, file);
            let hooks = settings.field("hooks"@);
            let bad = |event: Seq<char>|
                hooks is Some && hooks->0.field(event) is Some && !(hooks->0.field(event)->0
                    is Array);
            &&& !(settings is Object) ==> r == Err::<(JsonView, Seq<Seq<char>>), ErrorView>(
                ErrorView::SettingsNotObject(file),
            )
            &&& settings is Object && hooks is Some && !(hooks->0 is Object) ==> r == Err::<
                (JsonView, Seq<Seq<char>>),
                ErrorView,
            >(ErrorView::HooksNotObject)
            &&& settings is Object && (hooks is Some ==> hooks->0 is Object) ==> {
                &&& bad("PreToolUse"@) ==> r == Err::<(JsonView, Seq<Seq<char>>), ErrorView>(
                    ErrorView::EventNotArray("PreToolUse"@),
                )
                &&& !bad("PreToolUse"@) && bad("SessionStart"@) ==> r == Err::<
                    (JsonView, Seq<Seq<char>>),
                    ErrorView,
                >(ErrorView::EventNotArray("SessionStart"@))
                &&& !bad("PreToolUse"@) && !bad("SessionStart"@) ==> r is Ok
            }
        }),
{
    let (a, b) = ("PreToolUse"@, "SessionStart"@);
    reveal_strlit("PreToolUse");
    reveal_strlit("SessionStart");
    assert(a.len() == 10 && b.len() == 12);
    let h0 = match settings.field("hooks"@) {
        Some(h) => h,
        None => JsonView::Object(Map::empty()),
    };
    if with_event(h0, a, Some(MATCHER@), command) is Ok {
        lemma_one_event(h0, a, Some(MATCHER@), command, b);
    }
}

/// What is no hook of the two events stays as it is: every other setting, and the
/// entries of every other event.
pub proof fn other_settings_stay(
    settings: JsonView,
    command: Seq<char>,
    file: Seq<char>,
    name: Seq<char>,
    event: Seq<char>,
)
    requires
        installed(settings, command, file) is Ok,
    ensures
        ({
            let v = installed(settings, command, file)->Ok_0.0;
            &&& name != "hooks"@ ==> v.field(name) == settings.field(name)
            &&& event != "PreToolUse"@ && event != "SessionStart"@ ==> {
                &&& v.field("hooks"@) matches Some(h)
                &&& h.field(event) == match settings.field("hooks"@) {
                    Some(g) => g.field(event),
                    None => None,
                }
            }
        }),
{
    install_keeps_settings(settings, command, file, name, event);
}

/// The command of the hook is this program with the word `hook`; a program whose place is
/// not known is called by its name.
pub proof fn command_runs_the_hook(exe: Seq<char>)
    ensures
        hook_command(Some(exe)) == exe + " hook"@,
        hook_command(None) == "timefork hook"@,
{
    reveal_strlit("timefork");
    reveal_strlit(" hook");
    reveal_strlit("timefork hook");
    assert(hook_command(None) =~= "timefork hook"@);
}

/// No file and a blank one hold no settings; any other holds what its text is read as,
/// or is refused with the reason.
pub proof fn settings_are_what_the_text_says(raw: Seq<char>)
    ensures
        settings_in(None) == Ok::<JsonView, Seq<char>>(JsonView::Object(Map::empty())),
        blank(raw) ==> settings_in(Some(raw)) == Ok::<JsonView, Seq<char>>(
            JsonView::Object(Map::empty()),
        ),
        !blank(raw) ==> settings_in(Some(raw)) == json_parsed(raw),
{
}

/// The settings of an agent are in the directory that is called after it, with a dot.
pub proof fn settings_are_in_the_agents_directory(root: PathView, agent: Seq<char>)
    ensures
        settings_at(root, agent) == root.child(encode_utf8(seq!['.'] + agent)).child(
            encode_utf8("settings.json"@),
        ),
        settings_file(agent) == seq!['.'] + agent + "/settings.json"@,
{
    reveal_strlit(".");
    assert("."@ =~= seq!['.']);
    assert(own_dir(agent) =~= seq!['.'] + agent);
}

/// What is said of an install names the events, with a plus sign between them, the file
/// and the agent; where there was nothing to add, only the file.
pub proof fn install_is_reported(events: Seq<Seq<char>>, path: PathView, agent: Seq<char>)
    ensures
        events.len() == 0 ==> install_report(events, path, agent) == seq![
            "hooks already installed in "@ + path.shown(),
        ],
        events.len() > 0 ==> {
            let r = install_report(events, path, agent);
            &&& r.len() == 2
            &&& r[0] == "installed "@ + joined(events, " + "@) + " hook(s) in "@ + path.shown()
            &&& r[1] == "every mutating tool call in "@ + agent
                + " will now checkpoint this workspace"@
        },
{
}

} // verus!
