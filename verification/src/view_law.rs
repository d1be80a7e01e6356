//! What a value is seen as: each of its parts as that part, and no part left out.

use crate::action::{actions, Action, ActionView};
use crate::clone::{tasks, Cloner, Task};
use crate::error::{Error, ErrorView};
use crate::git::{Head, HeadView};
use crate::json::{fields, items, json_view, Fraction, Json, JsonView};
use crate::listing::{entries, Entry};
use crate::ops::{RestoreStep, RestoreStepView, SnapMeta, SnapStep, SnapStepView, Swap};
use crate::path::{names, paths, FsPath};
use crate::prune::{steps, PruneStep, PruneStepView};
use crate::report::records;
use crate::store::{Snap, Store};
use crate::text::opt_text;
use crate::walk::{raws, RawEntry, Walker};
use vstd::prelude::*;

verus! {

/// A checkpoint is seen field by field.
pub proof fn checkpoint_is_seen_field_by_field(s: Snap, m: SnapMeta)
    ensures
        s@.id == s.id,
        s@.ts == s.ts,
        s@.origin == s.origin@,
        s@.label == s.label@,
        s@.tool == opt_text(s.tool),
        s@.session == opt_text(s.session),
        s@.git_head == opt_text(s.git_head),
        s@.entries == s.entries,
        s@.took_ms == s.took_ms,
        m@.origin == m.origin@,
        m@.label == m.label@,
        m@.tool == opt_text(m.tool),
        m@.session == opt_text(m.session),
{
}

/// A path is seen by where it starts and by its names, and a store by its two paths.
pub proof fn path_is_seen_by_its_names(p: FsPath, s: Store, w: Swap)
    ensures
        p@.absolute == p.absolute,
        p@.parts == names(p.parts@),
        s@.root == s.root@,
        s@.dir == s.dir@,
        w@.root == w.root@,
        w@.staging == w.staging@,
        w@.trash == w.trash@,
{
}

/// A clone under way is seen by what is left to do and what was done.
pub proof fn clone_is_seen_by_its_tasks(t: Task, c: Cloner)
    ensures
        t@.stage == t.stage,
        t@.src == t.src@,
        t@.dst == t.dst@,
        c@.exclude == names(c.exclude@),
        c@.todo.len() == c.todo@.len(),
        forall|i: int| 0 <= i < c.todo@.len() ==> #[trigger] c@.todo[i] == c.todo@[i]@,
        c@.entries == c.stats.entries,
        c@.skipped == paths(c.stats.skipped@),
        c@.copied == c.stats.copied,
        c@.todo == tasks(c.todo@),
{
}

/// What the system says of an entry is seen as it is said, and so is a walk by what it
/// is still to list and what it found.
pub proof fn walk_is_seen_by_what_it_found(r: RawEntry, w: Walker, e: Entry, v: Seq<RawEntry>)
    ensures
        r@.name == r.name@,
        r@.is_symlink == r.is_symlink,
        r@.is_dir == r.is_dir,
        r@.is_file == r.is_file,
        r@.len == r.len,
        r@.mtime_ns == r.mtime_ns,
        w@.live == w.live,
        w@.pending == paths(w.pending@),
        w@.found == entries(w.found@),
        e@.path == names(e.path@),
        e@.meta == e.meta,
        raws(v).len() == v.len(),
        forall|i: int| 0 <= i < v.len() ==> #[trigger] raws(v)[i] == v[i]@,
{
}

/// Lists of entries, of checkpoints and of actions are seen item by item.
pub proof fn lists_are_seen_in_order(e: Seq<Entry>, s: Seq<Snap>, a: Seq<Action>, p: Seq<PruneStep>)
    ensures
        entries(e).len() == e.len(),
        forall|i: int| 0 <= i < e.len() ==> #[trigger] entries(e)[i] == e[i]@,
        records(s).len() == s.len(),
        forall|i: int| 0 <= i < s.len() ==> #[trigger] records(s)[i] == s[i]@,
        actions(a).len() == a.len(),
        forall|i: int| 0 <= i < a.len() ==> #[trigger] actions(a)[i] == a[i]@,
        steps(p).len() == p.len(),
        forall|i: int| 0 <= i < p.len() ==> #[trigger] steps(p)[i] == p[i]@,
{
}

/// Actions and steps are seen as what they are.
pub proof fn actions_are_seen_as_they_are(
    p: FsPath,
    q: FsPath,
    x: Vec<Vec<u8>>,
    id: u64,
    a: Action,
    m: SnapMeta,
)
    ensures
        Action::Discard(p)@ == ActionView::Discard(p@),
        Action::Remove(p)@ == ActionView::Remove(p@),
        Action::MakeDir(p)@ == ActionView::MakeDir(p@),
        Action::DropDir(p)@ == ActionView::DropDir(p@),
        (Action::Rename { from: p, to: q })@ == (ActionView::Rename { from: p@, to: q@ }),
        (Action::Clone { src: p, dst: q, exclude: x })@ == (ActionView::Clone {
            src: p@,
            dst: q@,
            exclude: names(x@),
        }),
        SnapStep::Act(a)@ == SnapStepView::Act(a@),
        SnapStep::Record@ == SnapStepView::Record,
        SnapStep::Number@ == SnapStepView::Number,
        RestoreStep::Checkpoint(m)@ == RestoreStepView::Checkpoint(m@),
        RestoreStep::Stage@ == RestoreStepView::Stage,
        RestoreStep::MoveOut@ == RestoreStepView::MoveOut,
        RestoreStep::MoveIn@ == RestoreStepView::MoveIn,
        (PruneStep::Remove { id, tree: a })@ == (PruneStepView::Remove { id, tree: a@ }),
        PruneStep::Rewrite@ == PruneStepView::Rewrite,
        PruneStep::Clear(p)@ == PruneStepView::Clear(p@),
{
}

/// An error is seen as the one it is, with what it is about.
pub proof fn error_is_seen_as_it_is(p: FsPath, id: u64, s: String)
    ensures
        Error::NoStore@ == ErrorView::NoStore,
        Error::AlreadyInitialized(p)@ == ErrorView::AlreadyInitialized(p@),
        Error::NoCheckpoint(id)@ == ErrorView::NoCheckpoint(id),
        Error::Pruned(id)@ == ErrorView::Pruned(id),
        Error::NoTree(id)@ == ErrorView::NoTree(id),
        Error::BadTreeRef(s)@ == ErrorView::BadTreeRef(s@),
        Error::NoParent@ == ErrorView::NoParent,
        Error::DestinationExists(p)@ == ErrorView::DestinationExists(p@),
        Error::NothingToPrune@ == ErrorView::NothingToPrune,
        Error::Aborted@ == ErrorView::Aborted,
        Error::BadJson(s)@ == ErrorView::BadJson(s@),
        Error::SettingsNotObject(s)@ == ErrorView::SettingsNotObject(s@),
        Error::HooksNotObject@ == ErrorView::HooksNotObject,
        Error::EventNotArray(s)@ == ErrorView::EventNotArray(s@),
{
}

/// A git head is seen as the branch or the commit that it is.
pub proof fn head_is_seen_as_it_is(reference: String, branch: String)
    ensures
        (Head::Branch { reference, branch })@ == (HeadView::Branch {
            reference: reference@,
            branch: branch@,
        }),
        Head::Detached(branch)@ == HeadView::Detached(branch@),
{
}

/// A JSON value is seen as its contents: the items of an array in order, and of the
/// fields of an object the last with each name.
pub proof fn json_is_seen_as_its_contents(
    b: bool,
    n: u64,
    m: i64,
    f: Fraction,
    s: String,
    a: Vec<Json>,
    o: Vec<(String, Json)>,
)
    ensures
        json_view(Json::Fraction(f)) == JsonView::Fraction(f),
        json_view(Json::Null) == JsonView::Null,
        json_view(Json::Bool(b)) == JsonView::Bool(b),
        json_view(Json::Unsigned(n)) == JsonView::Integer(n as int),
        json_view(Json::Signed(m)) == JsonView::Integer(m as int),
        json_view(Json::Text(s)) == JsonView::Text(s@),
        json_view(Json::Array(a)) == JsonView::Array(items(a@)),
        json_view(Json::Object(o)) == JsonView::Object(fields(o@)),
        items(a@).len() == a@.len(),
        forall|i: int| 0 <= i < a@.len() ==> #[trigger] items(a@)[i] == json_view(a@[i]),
{
    lemma_items_in_order(a@);
}

proof fn lemma_items_in_order(v: Seq<Json>)
    ensures
        items(v).len() == v.len(),
        forall|i: int| 0 <= i < v.len() ==> #[trigger] items(v)[i] == json_view(v[i]),
    decreases v.len(),
{
    if v.len() > 0 {
        let front = v.drop_last();
        lemma_items_in_order(front);
        assert forall|i: int| 0 <= i < v.len() implies #[trigger] items(v)[i] == json_view(v[i]) by {
            if i < front.len() {
                assert(items(front)[i] == json_view(front[i]));
            }
        }
    }
}

/// One more field is the one that counts for its name, and changes no other.
pub proof fn last_field_counts(v: Seq<(String, Json)>, f: (String, Json), name: Seq<char>)
    ensures
        fields(Seq::<(String, Json)>::empty()) == Map::<Seq<char>, JsonView>::empty(),
        fields(v.push(f)).contains_key(name) <==> fields(v).contains_key(name) || name == f.0@,
        fields(v.push(f)).contains_key(name) ==> fields(v.push(f))[name] == if name == f.0@ {
            json_view(f.1)
        } else {
            fields(v)[name]
        },
{
    assert(v.push(f).drop_last() =~= v);
}

/// A field is one of an object, by its name, and a text is the text that a value is.
pub proof fn field_is_one_of_an_object(v: JsonView, name: Seq<char>, x: JsonView, s: Seq<char>)
    ensures
        v.field(name) == Some(x) <==> v is Object && v->Object_0.contains_key(name)
            && v->Object_0[name] == x,
        v.text() == Some(s) <==> v == JsonView::Text(s),
        v.field_text(name) == Some(s) <==> v.field(name) == Some(JsonView::Text(s)),
{
}

} // verus!
