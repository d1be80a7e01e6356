//! What the store knows of git: the current head, and the exclude list.

use crate::journal::{append_adds_one, ends_line};
use crate::store::Store;
use crate::text_law::pieces_make_up_the_text;
use crate::text::{
    chars_of, joined, lines_of, nonblank_lines, pieces, same_text, text_of, texts, trim, trimmed,
    trimmed_end, trimmed_start,
};
use vstd::prelude::*;

verus! {

/// What a `.git/HEAD` file says.
#[derive(Debug)]
pub enum Head {
    /// A reference, whose file below `.git` holds the commit, and the branch
    /// that it is for.
    Branch { reference: String, branch: String },
    /// A commit, shortened.
    Detached(String),
}

pub enum HeadView {
    Branch { reference: Seq<char>, branch: Seq<char> },
    Detached(Seq<char>),
}

impl View for Head {
    type V = HeadView;

    open spec fn view(&self) -> HeadView {
        match *self {
            Head::Branch { reference, branch } => HeadView::Branch {
                reference: reference@,
                branch: branch@,
            },
            Head::Detached(commit) => HeadView::Detached(commit@),
        }
    }
}

/// The first seven characters.
pub open spec fn short(s: Seq<char>) -> Seq<char> {
    if s.len() > 7 {
        s.take(7)
    } else {
        s
    }
}

/// What the text of a `.git/HEAD` file says.
pub open spec fn head_of(raw: Seq<char>) -> HeadView {
    let head = trimmed(raw);
    if "ref: "@.is_prefix_of(head) {
        let reference = head.skip("ref: "@.len() as int);
        HeadView::Branch { reference, branch: pieces(reference, '/').last() }
    } else {
        HeadView::Detached(short(head))
    }
}

/// How a head is recorded, where `commit` is what the file of its reference
/// holds, if it can be read.
pub open spec fn head_text(head: HeadView, commit: Option<Seq<char>>) -> Seq<char> {
    match head {
        HeadView::Detached(s) => s,
        HeadView::Branch { branch, .. } => match commit {
            Some(raw) if short(trimmed(raw)).len() > 0 => branch + "@"@ + short(trimmed(raw)),
            _ => branch,
        },
    }
}

/// Where the last piece of `s` starts.
proof fn lemma_last_piece(s: Seq<char>, sep: char, i: int)
    requires
        0 <= i <= s.len(),
        i > 0 ==> s[i - 1] == sep,
        forall|k: int| i <= k < s.len() ==> s[k] != sep,
    ensures
        pieces(s, sep).len() > 0,
        pieces(s, sep).last() == s.skip(i),
    decreases s.len(),
{
    if s.len() > 0 {
        if i < s.len() {
            lemma_last_piece(s.drop_last(), sep, i);
            assert(s.drop_last().skip(i).push(s.last()) =~= s.skip(i));
        } else {
            assert(s.skip(i) =~= Seq::empty());
        }
    } else {
        assert(s.skip(i) =~= Seq::empty());
    }
}

fn short_text(s: &str) -> (r: String)
    ensures
        r@ == short(s@),
{
    let cs = chars_of(s);
    let n: usize = if cs.len() > 7 {
        7
    } else {
        cs.len()
    };
    assert(cs@.subrange(0, n as int) =~= short(s@));
    text_of(&cs, 0, n)
}

/// Reads the text of a `.git/HEAD` file.
pub fn read_head(raw: &str) -> (r: Head)
    ensures
        r@ == head_of(raw@),
{
    let head = trim(raw);
    let cs = chars_of(head.as_str());
    let prefix = chars_of("ref: ");
    let n: usize = prefix.len();
    let mut i: usize = 0;
    while i < n && i < cs.len() && cs[i] == prefix[i]
        invariant
            i <= n == prefix@.len(),
            i <= cs@.len(),
            forall|k: int| 0 <= k < i ==> cs@[k] == prefix@[k],
        decreases n - i,
    {
        i += 1;
    }
    if i < n {
        proof {
            if "ref: "@.is_prefix_of(cs@) {
                assert(cs@.subrange(0, n as int)[i as int] == cs@[i as int]);
            }
        }
        return Head::Detached(short_text(head.as_str()));
    }
    assert(prefix@ =~= cs@.subrange(0, n as int));
    let len: usize = cs.len();
    let mut from: usize = len;
    while from > n && cs[from - 1] != '/'
        invariant
            n <= from <= len == cs@.len(),
            forall|k: int| from <= k < len ==> cs@[k] != '/',
        decreases from,
    {
        from -= 1;
    }
    proof {
        let reference = cs@.skip(n as int);
        lemma_last_piece(reference, '/', from - n);
        assert(reference.skip(from - n) =~= cs@.subrange(from as int, len as int));
        assert(reference =~= cs@.subrange(n as int, len as int));
    }
    Head::Branch { reference: text_of(&cs, n, len), branch: text_of(&cs, from, len) }
}

impl Store {
    /// The current git head as it is recorded, where `commit` is what the file
    /// of its reference holds, if it can be read.
    pub fn git_head(head: &Head, commit: Option<&str>) -> (r: String)
        ensures
            r@ == head_text(
                head@,
                match commit {
                    Some(raw) => Some(raw@),
                    None => None,
                },
            ),
    {
        match head {
            Head::Detached(s) => s.clone(),
            Head::Branch { branch, .. } => match commit {
                None => branch.clone(),
                Some(raw) => {
                    let commit = trim(raw);
                    let sha = short_text(commit.as_str());
                    if sha.as_str().is_empty() {
                        branch.clone()
                    } else {
                        let mut r = branch.clone();
                        r.append("@");
                        r.append(sha.as_str());
                        r
                    }
                },
            },
        }
    }

    /// Whether git's exclude list, `existing`, lacks the line for the store.
    pub fn git_exclude_self(existing: &str) -> (r: bool)
        ensures
            r == !nonblank_lines(existing@).contains(".timefork/"@),
    {
        let lines = lines_of(existing);
        let mut i: usize = 0;
        while i < lines.len()
            invariant
                i <= lines@.len(),
                texts(lines@) == nonblank_lines(existing@),
                forall|k: int| 0 <= k < i ==> texts(lines@)[k] != ".timefork/"@,
            decreases lines@.len() - i,
        {
            if same_text(lines[i].as_str(), ".timefork/") {
                assert(texts(lines@)[i as int] == ".timefork/"@);
                return false;
            }
            i += 1;
        }
        true
    }
}

/// What is to be appended to git's exclude list, `existing`, so that it has the line
/// for the store: nothing where it has it, and else the line, on a line of its own.
pub open spec fn exclude_line(existing: Seq<char>) -> Seq<char> {
    if nonblank_lines(existing).contains(".timefork/"@) {
        Seq::empty()
    } else if ends_line(existing) {
        ".timefork/"@.push('\n')
    } else {
        seq!['\n'] + ".timefork/"@.push('\n')
    }
}

/// What is to be appended to git's exclude list, `existing`, so that it has the line
/// for the store.
pub fn exclude_addition(existing: &str) -> (r: String)
    ensures
        r@ == exclude_line(existing@),
        nonblank_lines(existing@ + r@) == if nonblank_lines(existing@).contains(".timefork/"@) {
            nonblank_lines(existing@)
        } else {
            nonblank_lines(existing@).push(".timefork/"@)
        },
{
    let mut r = String::new();
    proof {
        exclude_line_is_added(existing@);
    }
    if Store::git_exclude_self(existing) {
        let cs = chars_of(existing);
        if cs.len() > 0 && cs[cs.len() - 1] != '\n' {
            r.push('\n');
        }
        r.append(".timefork/");
        r.push('\n');
        assert(r@ =~= exclude_line(existing@));
    } else {
        assert(r@ =~= Seq::empty());
    }
    r
}

proof fn lemma_line_end_adds_nothing(s: Seq<char>)
    ensures
        nonblank_lines(s.push('\n')) == nonblank_lines(s),
        ends_line(s.push('\n')),
{
    let tr = |l: Seq<char>| trimmed(l);
    let full = |l: Seq<char>| l.len() > 0;
    let none = Seq::<char>::empty();
    assert(s.push('\n').drop_last() =~= s);
    let p = pieces(s, '\n');
    assert(p.push(none).map_values(tr) =~= p.map_values(tr).push(none));
    p.map_values(tr).lemma_filter_push(none, full);
}

/// Once what is to be appended to an exclude list is appended, the list has the line
/// for the store, and every line that it had.
pub proof fn exclude_line_is_added(existing: Seq<char>)
    ensures
        nonblank_lines(existing + exclude_line(existing)).contains(".timefork/"@),
        nonblank_lines(existing + exclude_line(existing)) == if nonblank_lines(existing).contains(
            ".timefork/"@,
        ) {
            nonblank_lines(existing)
        } else {
            nonblank_lines(existing).push(".timefork/"@)
        },
{
    let line = ".timefork/"@;
    let lines = nonblank_lines(existing);
    if lines.contains(line) {
        assert(existing + exclude_line(existing) =~= existing);
    } else {
        reveal_strlit(".timefork/");
        assert(trimmed_start(line) == line);
        assert(trimmed_end(line) == line);
        assert(!line.contains('\n'));
        if ends_line(existing) {
            append_adds_one(existing, line);
        } else {
            lemma_line_end_adds_nothing(existing);
            append_adds_one(existing.push('\n'), line);
            assert(existing + exclude_line(existing) =~= existing.push('\n') + line.push('\n'));
        }
        assert(lines.push(line)[lines.len() as int] == line);
    }
}

/// A commit is shortened to its first seven characters.
pub proof fn commit_is_shortened_to_its_start(s: Seq<char>)
    ensures
        short(s).is_prefix_of(s),
        short(s).len() == if s.len() < 7 {
            s.len()
        } else {
            7
        },
{
    assert(s.take(s.len() as int) =~= s);
}

/// A head that starts with `ref: ` is a branch: the reference is what follows, and the
/// branch is the end of it that has no slash.
pub proof fn head_with_a_reference_is_a_branch(raw: Seq<char>, reference: Seq<char>)
    requires
        trimmed(raw) == seq!['r', 'e', 'f', ':', ' '] + reference,
    ensures
        head_of(raw) matches HeadView::Branch { reference: r, branch } && r == reference
            && !branch.contains('/') && (branch == reference || exists|dir: Seq<char>|
            reference == #[trigger] (dir.push('/') + branch)),
{
    reveal_strlit("ref: ");
    let head = trimmed(raw);
    let start = "ref: "@;
    assert(start =~= seq!['r', 'e', 'f', ':', ' ']);
    assert(head.subrange(0, start.len() as int) =~= start);
    assert(head.skip(5) =~= reference);
    let p = pieces(reference, '/');
    let branch = p.last();
    pieces_make_up_the_text(reference, '/');
    if branch.contains('/') {
        let k = choose|k: int| 0 <= k < branch.len() && branch[k] == '/';
        assert(p[p.len() - 1][k] != '/');
    }
    if p.len() == 1 {
        assert(branch == reference);
    } else {
        let dir = joined(p.drop_last(), seq!['/']);
        assert(reference =~= dir.push('/') + branch);
    }
}

/// A head that does not start with `ref: ` is a commit, which is shortened.
pub proof fn head_without_a_reference_is_a_commit(raw: Seq<char>)
    requires
        !seq!['r', 'e', 'f', ':', ' '].is_prefix_of(trimmed(raw)),
    ensures
        head_of(raw) == HeadView::Detached(short(trimmed(raw))),
{
    reveal_strlit("ref: ");
    assert("ref: "@ =~= seq!['r', 'e', 'f', ':', ' ']);
}

/// A branch is recorded with its commit behind an at sign, where the commit is known, and
/// else alone; a commit is recorded as it is.
pub proof fn head_is_recorded_with_its_commit(
    reference: Seq<char>,
    branch: Seq<char>,
    commit: Seq<char>,
)
    ensures
        head_text(HeadView::Detached(branch), Some(commit)) == branch,
        head_text(HeadView::Detached(branch), None) == branch,
        head_text(HeadView::Branch { reference, branch }, None) == branch,
        trimmed(commit).len() == 0 ==> head_text(
            HeadView::Branch { reference, branch },
            Some(commit),
        ) == branch,
        trimmed(commit).len() > 0 ==> head_text(
            HeadView::Branch { reference, branch },
            Some(commit),
        ) == branch + seq!['@'] + short(trimmed(commit)),
{
    reveal_strlit("@");
    assert("@"@ =~= seq!['@']);
}

/// What is appended to an exclude list is nothing, or the line for the store, after a
/// line end where the list lacks one.
pub proof fn exclude_line_is_on_its_own(existing: Seq<char>)
    ensures
        nonblank_lines(existing).contains(".timefork/"@) ==> exclude_line(existing).len() == 0,
        !nonblank_lines(existing).contains(".timefork/"@) ==> exclude_line(existing) == if existing.len()
            == 0 || existing.last() == '\n' {
            ".timefork/"@ + seq!['\n']
        } else {
            seq!['\n'] + ".timefork/"@ + seq!['\n']
        },
{
    let line = ".timefork/"@;
    assert(line.push('\n') =~= line + seq!['\n']);
    assert(seq!['\n'] + line.push('\n') =~= seq!['\n'] + line + seq!['\n']);
}

} // verus!
