//! What can go wrong, and how it is said.

use crate::number::{decimal, push_decimal};
use crate::path::{FsPath, PathView};
use vstd::prelude::*;

verus! {

/// Why a request is refused.
#[derive(Debug)]
pub enum Error {
    /// Neither the directory nor one above it holds a store.
    NoStore,
    /// The workspace has a store already, at this path.
    AlreadyInitialized(FsPath),
    /// The journal has no checkpoint with this number.
    NoCheckpoint(u64),
    /// The checkpoint is in the journal, but its tree is gone.
    Pruned(u64),
    /// There is no tree for this number.
    NoTree(u64),
    /// The text names neither a checkpoint nor the live workspace.
    BadTreeRef(String),
    /// The workspace has no directory above it.
    NoParent,
    /// A fork would overwrite what is at this path.
    DestinationExists(FsPath),
    /// A prune that would drop nothing.
    NothingToPrune,
    /// A restore that was not confirmed.
    Aborted,
    /// A text that is not JSON, with the reason.
    BadJson(String),
    /// The settings, in the file of this name, are JSON but no object.
    SettingsNotObject(String),
    /// The settings have `hooks` that are no object.
    HooksNotObject,
    /// The settings have something other than an array for this event.
    EventNotArray(String),
}

/// An error as its contents.
pub enum ErrorView {
    NoStore,
    AlreadyInitialized(PathView),
    NoCheckpoint(u64),
    Pruned(u64),
    NoTree(u64),
    BadTreeRef(Seq<char>),
    NoParent,
    DestinationExists(PathView),
    NothingToPrune,
    Aborted,
    BadJson(Seq<char>),
    SettingsNotObject(Seq<char>),
    HooksNotObject,
    EventNotArray(Seq<char>),
}

impl View for Error {
    type V = ErrorView;

    open spec fn view(&self) -> ErrorView {
        match *self {
            Error::NoStore => ErrorView::NoStore,
            Error::AlreadyInitialized(dir) => ErrorView::AlreadyInitialized(dir@),
            Error::NoCheckpoint(id) => ErrorView::NoCheckpoint(id),
            Error::Pruned(id) => ErrorView::Pruned(id),
            Error::NoTree(id) => ErrorView::NoTree(id),
            Error::BadTreeRef(s) => ErrorView::BadTreeRef(s@),
            Error::NoParent => ErrorView::NoParent,
            Error::DestinationExists(p) => ErrorView::DestinationExists(p@),
            Error::NothingToPrune => ErrorView::NothingToPrune,
            Error::Aborted => ErrorView::Aborted,
            Error::BadJson(why) => ErrorView::BadJson(why@),
            Error::SettingsNotObject(file) => ErrorView::SettingsNotObject(file@),
            Error::HooksNotObject => ErrorView::HooksNotObject,
            Error::EventNotArray(event) => ErrorView::EventNotArray(event@),
        }
    }
}

impl ErrorView {
    /// The error in words.
    pub open spec fn message(self) -> Seq<char> {
        match self {
            ErrorView::NoStore =>
                "no .timefork store found here or in any parent directory (run `timefork init` in your workspace root)"@,
            ErrorView::AlreadyInitialized(dir) => dir.shown()
                + " already exists — this workspace is already initialized"@,
            ErrorView::NoCheckpoint(id) => "no checkpoint #"@ + decimal(id as nat)
                + " (see `timefork list`)"@,
            ErrorView::Pruned(id) => "checkpoint #"@ + decimal(id as nat)
                + " has been pruned — its tree is gone"@,
            ErrorView::NoTree(id) => "checkpoint #"@ + decimal(id as nat)
                + " not found (pruned or never existed)"@,
            ErrorView::BadTreeRef(s) => "expected a checkpoint id or 'live', got '"@ + s + "'"@,
            ErrorView::NoParent => "workspace has no parent directory to fork into"@,
            ErrorView::DestinationExists(p) => p.shown()
                + " already exists — refusing to overwrite"@,
            ErrorView::NothingToPrune =>
                "nothing to do: pass --keep N and/or --older-than HOURS"@,
            ErrorView::Aborted => "aborted"@,
            ErrorView::BadJson(why) => why,
            ErrorView::SettingsNotObject(file) => file + " is not a JSON object"@,
            ErrorView::HooksNotObject => "settings 'hooks' is not an object"@,
            ErrorView::EventNotArray(event) => "settings hooks."@ + event + " is not an array"@,
        }
    }
}

/// A number between two texts.
fn around_number(before: &str, n: u64, after: &str) -> (r: String)
    ensures
        r@ == before@ + decimal(n as nat) + after@,
{
    let mut r = before.to_owned();
    push_decimal(&mut r, n);
    r.append(after);
    r
}

/// A text between two texts.
fn around_text(before: &str, s: &str, after: &str) -> (r: String)
    ensures
        r@ == before@ + s@ + after@,
{
    let mut r = before.to_owned();
    r.append(s);
    r.append(after);
    r
}

impl Error {
    /// The error in words.
    pub fn message(&self) -> (r: String)
        ensures
            r@ == self@.message(),
    {
        match self {
            Error::NoStore =>
                "no .timefork store found here or in any parent directory (run `timefork init` in your workspace root)".to_owned(),
            Error::AlreadyInitialized(dir) => {
                let mut r = dir.display();
                r.append(" already exists — this workspace is already initialized");
                r
            },
            Error::NoCheckpoint(id) => around_number(
                "no checkpoint #",
                *id,
                " (see `timefork list`)",
            ),
            Error::Pruned(id) => around_number(
                "checkpoint #",
                *id,
                " has been pruned — its tree is gone",
            ),
            Error::NoTree(id) => around_number(
                "checkpoint #",
                *id,
                " not found (pruned or never existed)",
            ),
            Error::BadTreeRef(s) => around_text(
                "expected a checkpoint id or 'live', got '",
                s.as_str(),
                "'",
            ),
            Error::NoParent => "workspace has no parent directory to fork into".to_owned(),
            Error::DestinationExists(p) => {
                let mut r = p.display();
                r.append(" already exists — refusing to overwrite");
                r
            },
            Error::NothingToPrune =>
                "nothing to do: pass --keep N and/or --older-than HOURS".to_owned(),
            Error::Aborted => "aborted".to_owned(),
            Error::BadJson(why) => why.clone(),
            Error::SettingsNotObject(file) => {
                let mut r = file.clone();
                r.append(" is not a JSON object");
                r
            },
            Error::HooksNotObject => "settings 'hooks' is not an object".to_owned(),
            Error::EventNotArray(event) => around_text(
                "settings hooks.",
                event.as_str(),
                " is not an array",
            ),
        }
    }
}

/// An error about a checkpoint names it by its number, and says whether the journal lacks
/// it, its tree is gone, or there is no tree for it.
pub proof fn checkpoint_errors_name_the_number(id: u64)
    ensures
        ErrorView::NoCheckpoint(id).message() == "no checkpoint #"@ + decimal(id as nat)
            + " (see `timefork list`)"@,
        ErrorView::Pruned(id).message() == "checkpoint #"@ + decimal(id as nat)
            + " has been pruned — its tree is gone"@,
        ErrorView::NoTree(id).message() == "checkpoint #"@ + decimal(id as nat)
            + " not found (pruned or never existed)"@,
{
}

/// An error about a path names the path.
pub proof fn path_errors_name_the_path(p: PathView)
    ensures
        ErrorView::AlreadyInitialized(p).message() == p.shown()
            + " already exists — this workspace is already initialized"@,
        ErrorView::DestinationExists(p).message() == p.shown()
            + " already exists — refusing to overwrite"@,
{
}

/// An error about a text repeats it; the reason why a text is not JSON is all that is
/// said of it.
pub proof fn text_errors_repeat_the_text(s: Seq<char>)
    ensures
        ErrorView::BadTreeRef(s).message() == "expected a checkpoint id or 'live', got '"@ + s
            + "'"@,
        ErrorView::BadJson(s).message() == s,
        ErrorView::SettingsNotObject(s).message() == s + " is not a JSON object"@,
        ErrorView::EventNotArray(s).message() == "settings hooks."@ + s + " is not an array"@,
{
}

/// The other errors are said in fixed words, each in its own.
pub proof fn other_errors_have_their_words()
    ensures
        ErrorView::NoStore.message()
            == "no .timefork store found here or in any parent directory (run `timefork init` in your workspace root)"@,
        ErrorView::NoParent.message() == "workspace has no parent directory to fork into"@,
        ErrorView::NothingToPrune.message()
            == "nothing to do: pass --keep N and/or --older-than HOURS"@,
        ErrorView::Aborted.message() == "aborted"@,
        ErrorView::HooksNotObject.message() == "settings 'hooks' is not an object"@,
{
}

} // verus!
