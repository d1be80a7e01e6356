//! What the agent's hook is told, and what comes of it.
//!
//! The hook is run before each tool call and at the start of each session. It is
//! told what is about to happen as a JSON object. A checkpoint is due when a
//! session starts, and before a tool that can change the workspace.

use crate::error::{Error, ErrorView};
use crate::json::{json_parsed, Json, JsonView};
use crate::label::{truncate, truncated};
use crate::ops::{MetaView, SnapMeta};
use crate::path::{FsPath, PathView};
use crate::text::{opt_text, same_text};
use vstd::prelude::*;
use vstd::utf8::{decode_utf8, valid_utf8};

verus! {

/// Whether a tool can change the workspace.
pub open spec fn is_mutating(tool: Seq<char>) -> bool {
    tool == "Bash"@ || edits(tool) is Some
}

/// What is said for a tool that edits one file.
pub open spec fn edits(tool: Seq<char>) -> Option<Seq<char>> {
    if tool == "Edit"@ {
        Some("edit"@)
    } else if tool == "Write"@ {
        Some("write"@)
    } else if tool == "MultiEdit"@ {
        Some("multiedit"@)
    } else if tool == "NotebookEdit"@ {
        Some("notebookedit"@)
    } else {
        None
    }
}

/// What `Path::strip_prefix` leaves of a path below a directory; nothing where the
/// path is not below it.
pub uninterp spec fn stripped(path: Seq<char>, dir: Seq<char>) -> Option<Seq<char>>;

/// `Path::strip_prefix`: the path from `dir` to `path`, shown as text, if `path` is
/// below `dir`. It depends on the two texts alone.
#[verifier::external_body]
fn strip(path: &str, dir: &str) -> (r: Option<String>)
    ensures
        opt_text(r) == stripped(path@, dir@),
{
    std::path::Path::new(path).strip_prefix(dir).ok().map(|p| p.display().to_string())
}

/// How a path is shown: from the workspace, where it is in the workspace.
pub open spec fn shown_in(path: Seq<char>, root: PathView) -> Seq<char> {
    if valid_utf8(root.written()) {
        match stripped(path, decode_utf8(root.written())) {
            Some(s) => s,
            None => path,
        }
    } else {
        path
    }
}

/// The value, or else the default.
pub open spec fn or_else<A>(o: Option<A>, default: A) -> A {
    match o {
        Some(x) => x,
        None => default,
    }
}

/// The path that a tool is told to edit.
pub open spec fn edited_path(input: JsonView) -> Seq<char> {
    match input.field_text("file_path"@) {
        Some(s) => s,
        None => or_else(input.field_text("notebook_path"@), "?"@),
    }
}

/// The label for a tool call, where the path that it edits is shown as `shown`.
pub open spec fn tool_label(tool: Seq<char>, input: JsonView, shown: Seq<char>) -> Seq<char> {
    if tool == "Bash"@ {
        truncated(or_else(input.field_text("command"@), ""@), 80)
    } else {
        match edits(tool) {
            Some(what) => what + " "@ + truncated(shown, 70),
            None => tool,
        }
    }
}

/// The label for a tool call in the workspace at `root`.
pub open spec fn described(tool: Seq<char>, input: JsonView, root: PathView) -> Seq<char> {
    tool_label(tool, input, shown_in(edited_path(input), root))
}

fn edit_word(tool: &str) -> (r: Option<&'static str>)
    ensures
        match r {
            Some(s) => edits(tool@) == Some(s@),
            None => edits(tool@) is None,
        },
{
    if same_text(tool, "Edit") {
        Some("edit")
    } else if same_text(tool, "Write") {
        Some("write")
    } else if same_text(tool, "MultiEdit") {
        Some("multiedit")
    } else if same_text(tool, "NotebookEdit") {
        Some("notebookedit")
    } else {
        None
    }
}

fn path_in(input: &Json) -> (r: String)
    ensures
        r@ == edited_path(input@),
{
    match input.field_text("file_path") {
        Some(s) => s.to_owned(),
        None => match input.field_text("notebook_path") {
            Some(s) => s.to_owned(),
            None => "?".to_owned(),
        },
    }
}

/// How a path is shown: from the workspace, where it is in the workspace.
pub fn show_path(path: &str, root: &FsPath) -> (r: String)
    ensures
        r@ == shown_in(path@, root@),
{
    match root.to_text() {
        Some(dir) => match strip(path, dir.as_str()) {
            Some(s) => s,
            None => path.to_owned(),
        },
        None => path.to_owned(),
    }
}

/// The label for a tool call, where the path that it edits is shown as `shown`.
pub fn label_tool(tool: &str, input: &Json, shown: &str) -> (r: String)
    ensures
        r@ == tool_label(tool@, input@, shown@),
{
    if same_text(tool, "Bash") {
        return match input.field_text("command") {
            Some(s) => truncate(s, 80),
            None => truncate("", 80),
        };
    }
    match edit_word(tool) {
        Some(what) => {
            let rest = truncate(shown, 70);
            let mut r = what.to_owned();
            r.append(" ");
            r.append(rest.as_str());
            r
        },
        None => tool.to_owned(),
    }
}

/// The label for a tool call in the workspace at `root`.
pub fn describe_tool(tool: &str, input: &Json, root: &FsPath) -> (r: String)
    ensures
        r@ == described(tool@, input@, root@),
{
    let path = path_in(input);
    let shown = show_path(path.as_str(), root);
    label_tool(tool, input, shown.as_str())
}

/// What the tool of a payload is told.
pub open spec fn tool_input(payload: JsonView) -> JsonView {
    or_else(payload.field("tool_input"@), JsonView::Null)
}

/// The checkpoint that is due for what the hook is told, if one is.
pub open spec fn due(payload: JsonView, root: PathView) -> Option<MetaView> {
    let event = or_else(payload.field_text("hook_event_name"@), ""@);
    let session = payload.field_text("session_id"@);
    let tool = or_else(payload.field_text("tool_name"@), ""@);
    if event == "SessionStart"@ {
        Some(
            MetaView {
                origin: "session-start"@,
                label: "agent session started"@,
                tool: None,
                session,
            },
        )
    } else if event == "PreToolUse"@ && is_mutating(tool) {
        Some(
            MetaView {
                origin: "hook"@,
                label: described(tool, tool_input(payload), root),
                tool: Some(tool),
                session,
            },
        )
    } else {
        None
    }
}

/// What the hook is told.
#[derive(Debug)]
pub struct Payload {
    pub json: Json,
}

fn owned(s: Option<&str>) -> (r: Option<String>)
    ensures
        opt_text(r) == match s {
            Some(x) => Some(x@),
            None => None,
        },
{
    match s {
        Some(x) => Some(x.to_owned()),
        None => None,
    }
}

impl Payload {
    /// Reads what the hook is told.
    pub fn read(raw: &str) -> (r: Result<Payload, Error>)
        ensures
            match r {
                Ok(p) => json_parsed(raw@) == Ok::<JsonView, Seq<char>>(p.json@),
                Err(e) => json_parsed(raw@) matches Err(why) && e@ == ErrorView::BadJson(why),
            },
    {
        match Json::parse(raw) {
            Ok(json) => Ok(Payload { json }),
            Err(e) => Err(e),
        }
    }

    /// The directory that the agent is in, if the hook is told.
    pub fn cwd(&self) -> (r: Option<String>)
        ensures
            opt_text(r) == self.json@.field_text("cwd"@),
    {
        owned(self.json.field_text("cwd"))
    }

    /// The checkpoint that is due in the workspace at `root`, if one is.
    pub fn checkpoint(&self, root: &FsPath) -> (r: Option<SnapMeta>)
        ensures
            match r {
                Some(meta) => due(self.json@, root@) == Some(meta@),
                None => due(self.json@, root@) is None,
            },
            r matches Some(meta) ==> {
                &&& match meta.session {
                    Some(s) => self.json@.field_text("session_id"@) == Some(s@),
                    None => self.json@.field_text("session_id"@) is None,
                }
                &&& match meta.tool {
                    Some(t) => self.json@.field_text("hook_event_name"@) == Some("PreToolUse"@)
                        && self.json@.field_text("tool_name"@) == Some(t@) && meta.origin@
                        == "hook"@,
                    None => self.json@.field_text("hook_event_name"@) == Some("SessionStart"@)
                        && meta.origin@ == "session-start"@ && meta.label@
                        == "agent session started"@,
                }
            },
    {
        proof {
            checkpoint_says_what_the_hook_is_told(self.json@, root@);
        }
        let event = match self.json.field_text("hook_event_name") {
            Some(s) => s,
            None => "",
        };
        let session = owned(self.json.field_text("session_id"));
        if same_text(event, "SessionStart") {
            return Some(
                SnapMeta {
                    origin: "session-start".to_owned(),
                    label: "agent session started".to_owned(),
                    tool: None,
                    session,
                },
            );
        }
        if !same_text(event, "PreToolUse") {
            return None;
        }
        let tool = match self.json.field_text("tool_name") {
            Some(s) => s,
            None => "",
        };
        if !same_text(tool, "Bash") && edit_word(tool).is_none() {
            return None;
        }
        let none = Json::Null;
        let input = match self.json.field("tool_input") {
            Some(v) => v,
            None => &none,
        };
        let label = describe_tool(tool, input, root);
        Some(SnapMeta { origin: "hook".to_owned(), label, tool: Some(tool.to_owned()), session })
    }
}

/// A checkpoint says what the hook is told: the session is the one of the payload,
/// whatever the event; before a tool call the tool is the one that is about to run, and
/// at the start of a session there is none.
pub proof fn checkpoint_says_what_the_hook_is_told(payload: JsonView, root: PathView)
    ensures
        due(payload, root) matches Some(m) ==> {
            &&& m.session == payload.field_text("session_id"@)
            &&& payload.field_text("hook_event_name"@) == Some("PreToolUse"@) ==> m.tool
                == payload.field_text("tool_name"@) && m.tool is Some && m.origin == "hook"@
            &&& payload.field_text("hook_event_name"@) == Some("SessionStart"@) ==> m.tool is None
                && m.origin == "session-start"@ && m.label == "agent session started"@
            &&& payload.field_text("hook_event_name"@) == Some("PreToolUse"@)
                || payload.field_text("hook_event_name"@) == Some("SessionStart"@)
        },
{
    reveal_strlit("");
    reveal_strlit("SessionStart");
    reveal_strlit("PreToolUse");
    checkpoint_is_due_before_changes(payload, root);
    lemma_tools_have_names();
    assert("SessionStart"@.len() == 12 && "PreToolUse"@.len() == 10);
}

proof fn lemma_tools_have_names()
    ensures
        !is_mutating(""@),
{
    reveal_strlit("");
    reveal_strlit("Bash");
    reveal_strlit("Edit");
    reveal_strlit("Write");
    reveal_strlit("MultiEdit");
    reveal_strlit("NotebookEdit");
    assert(""@.len() == 0);
    assert("Bash"@.len() == 4 && "Edit"@.len() == 4 && "Write"@.len() == 5 && "MultiEdit"@.len()
        == 9 && "NotebookEdit"@.len() == 12);
}

/// The label of a checkpoint before a tool call says what the tool is about to do: the
/// command that is run, or the word for the edit and the path that is edited, each cut
/// to what fits on a line.
pub proof fn label_says_what_is_about_to_happen(payload: JsonView, root: PathView)
    ensures
        payload.field_text("hook_event_name"@) == Some("PreToolUse"@) ==> (due(payload, root) matches Some(
            m,
        ) ==> {
            let input = match payload.field("tool_input"@) {
                Some(x) => x,
                None => JsonView::Null,
            };
            let path = match (input.field_text("file_path"@), input.field_text("notebook_path"@)) {
                (Some(p), _) => p,
                (None, Some(p)) => p,
                (None, None) => "?"@,
            };
            &&& m.tool == Some("Bash"@) ==> m.label == truncated(
                match input.field_text("command"@) {
                    Some(c) => c,
                    None => ""@,
                },
                80,
            )
            &&& m.tool == Some("Edit"@) ==> m.label == "edit"@ + " "@ + truncated(
                shown_in(path, root),
                70,
            )
            &&& m.tool == Some("Write"@) ==> m.label == "write"@ + " "@ + truncated(
                shown_in(path, root),
                70,
            )
            &&& m.tool == Some("MultiEdit"@) ==> m.label == "multiedit"@ + " "@ + truncated(
                shown_in(path, root),
                70,
            )
            &&& m.tool == Some("NotebookEdit"@) ==> m.label == "notebookedit"@ + " "@ + truncated(
                shown_in(path, root),
                70,
            )
        }),
{
    reveal_strlit("SessionStart");
    reveal_strlit("PreToolUse");
    assert("SessionStart"@.len() == 12 && "PreToolUse"@.len() == 10);
    lemma_tools_differ();
}

proof fn lemma_tools_differ()
    ensures
        "Bash"@ != "Edit"@,
        "Bash"@ != "Write"@,
        "Bash"@ != "MultiEdit"@,
        "Bash"@ != "NotebookEdit"@,
        "Edit"@ != "Write"@,
        "Edit"@ != "MultiEdit"@,
        "Edit"@ != "NotebookEdit"@,
        "Write"@ != "MultiEdit"@,
        "Write"@ != "NotebookEdit"@,
        "MultiEdit"@ != "NotebookEdit"@,
{
    reveal_strlit("Bash");
    reveal_strlit("Edit");
    reveal_strlit("Write");
    reveal_strlit("MultiEdit");
    reveal_strlit("NotebookEdit");
    assert("Bash"@.len() == 4 && "Edit"@.len() == 4 && "Write"@.len() == 5 && "MultiEdit"@.len()
        == 9 && "NotebookEdit"@.len() == 12);
    assert("Bash"@[0] == 'B' && "Edit"@[0] == 'E');
}

/// The tools that can change the workspace are these five; those of them that edit a
/// file are called by their names in small letters.
pub proof fn five_tools_change_the_workspace(tool: Seq<char>)
    ensures
        is_mutating(tool) <==> tool == "Bash"@ || tool == "Edit"@ || tool == "Write"@ || tool
            == "MultiEdit"@ || tool == "NotebookEdit"@,
        edits(tool) is Some <==> is_mutating(tool) && tool != "Bash"@,
        edits(tool) matches Some(word) ==> word.len() == tool.len() && forall|i: int|
            0 <= i < tool.len() ==> #[trigger] word[i] as int == if 'A' <= tool[i] <= 'Z' {
                tool[i] as int + 32
            } else {
                tool[i] as int
            },
{
    lemma_tools_differ();
    reveal_strlit("Edit");
    reveal_strlit("Write");
    reveal_strlit("MultiEdit");
    reveal_strlit("NotebookEdit");
    reveal_strlit("edit");
    reveal_strlit("write");
    reveal_strlit("multiedit");
    reveal_strlit("notebookedit");
}

/// The label for a tool call is the command, or the word for the edit with the path as
/// it is shown, each cut to what fits; any other tool is called by its name.
pub proof fn tool_is_labelled_by_what_it_does(tool: Seq<char>, input: JsonView, shown: Seq<char>)
    ensures
        tool == "Bash"@ ==> tool_label(tool, input, shown) == truncated(
            match input.field_text("command"@) {
                Some(c) => c,
                None => ""@,
            },
            80,
        ),
        edits(tool) matches Some(word) ==> {
            let label = tool_label(tool, input, shown);
            &&& word.is_prefix_of(label)
            &&& label.skip(word.len() as int + 1) == truncated(shown, 70)
            &&& label[word.len() as int] == ' '
        },
        !is_mutating(tool) ==> tool_label(tool, input, shown) == tool,
{
    lemma_tools_differ();
    reveal_strlit(" ");
    if let Some(word) = edits(tool) {
        let label = tool_label(tool, input, shown);
        assert(label.take(word.len() as int) =~= word);
        assert(label.skip(word.len() as int + 1) =~= truncated(shown, 70));
    }
}

/// A path is shown from the workspace where the workspace holds it, and else as it is.
pub proof fn path_is_shown_from_the_workspace(path: Seq<char>, root: PathView, rest: Seq<char>)
    ensures
        valid_utf8(root.written()) && stripped(path, decode_utf8(root.written())) == Some(rest)
            ==> shown_in(path, root) == rest,
        !valid_utf8(root.written()) || stripped(path, decode_utf8(root.written())) is None
            ==> shown_in(path, root) == path,
{
}

/// Only the start of a session and tools that can change the workspace lead to a
/// checkpoint, and they always do.
pub proof fn checkpoint_is_due_before_changes(payload: JsonView, root: PathView)
    ensures
        due(payload, root) is Some <==> {
            ||| payload.field_text("hook_event_name"@) == Some("SessionStart"@)
            ||| {
                &&& payload.field_text("hook_event_name"@) == Some("PreToolUse"@)
                &&& payload.field_text("tool_name"@) matches Some(tool)
                &&& is_mutating(tool)
            }
        },
{
    reveal_strlit("");
    reveal_strlit("SessionStart");
    reveal_strlit("PreToolUse");
    reveal_strlit("Bash");
    reveal_strlit("Edit");
    reveal_strlit("Write");
    reveal_strlit("MultiEdit");
    reveal_strlit("NotebookEdit");
    assert(""@.len() == 0);
}

/// A tool call is labelled with the path that the tool is told to edit, as it is shown:
/// the file, or else the notebook, or else a question mark.
pub proof fn tool_call_is_labelled_with_its_path(
    tool: Seq<char>,
    input: JsonView,
    root: PathView,
    path: Seq<char>,
)
    requires
        match (input.field_text("file_path"@), input.field_text("notebook_path"@)) {
            (Some(p), _) => path == p,
            (None, Some(p)) => path == p,
            (None, None) => path == seq!['?'],
        },
    ensures
        described(tool, input, root) == tool_label(tool, input, shown_in(path, root)),
{
    reveal_strlit("?");
    assert("?"@ =~= seq!['?']);
}

} // verus!
