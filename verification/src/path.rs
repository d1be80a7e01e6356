//! Paths as lists of names.
//!
//! A path is the list of its components. A name is a sequence of bytes, since
//! file names need not be text. `.` and `..` stand for themselves; a `.` can
//! only come first, in a relative path.

use vstd::prelude::*;
use vstd::utf8::{decode_utf8, encode_utf8, valid_utf8};

verus! {

/// What a path says: where it starts, and the names along it.
#[verifier::ext_equal]
pub struct PathView {
    pub absolute: bool,
    pub parts: Seq<Seq<u8>>,
}

impl PathView {
    /// The path of the entry `name` in this directory.
    pub open spec fn child(self, name: Seq<u8>) -> PathView {
        PathView { parts: self.parts.push(name), ..self }
    }

    /// The entry with the name `name` in this directory, in UTF-8.
    pub open spec fn entry(self, name: Seq<char>) -> PathView {
        self.child(encode_utf8(name))
    }

    /// The directory that holds this path; a root and the empty path have none.
    pub open spec fn parent(self) -> Option<PathView> {
        if self.parts.len() > 0 {
            Some(PathView { parts: self.parts.drop_last(), ..self })
        } else {
            None
        }
    }

    /// The last name, unless the path ends in a root, in `.` or in `..`.
    pub open spec fn file_name(self) -> Option<Seq<u8>> {
        if self.parts.len() > 0 && self.parts.last() != seq![46u8] && self.parts.last()
            != seq![46u8, 46u8] {
            Some(self.parts.last())
        } else {
            None
        }
    }

    /// This path with another last name; one that has none gets one.
    pub open spec fn with_file_name(self, name: Seq<u8>) -> PathView {
        if self.file_name() is Some {
            PathView { parts: self.parts.drop_last().push(name), ..self }
        } else {
            self.child(name)
        }
    }

    /// The path as it is written, with a slash between its names.
    pub open spec fn written(self) -> Seq<u8> {
        if self.absolute {
            seq![47u8] + slashed(self.parts)
        } else {
            slashed(self.parts)
        }
    }

    /// The path as it is shown.
    pub open spec fn shown(self) -> Seq<char> {
        utf8_lossy(self.written())
    }
}

/// The names one after the other, with a slash between them.
pub open spec fn slashed(parts: Seq<Seq<u8>>) -> Seq<u8>
    decreases parts.len(),
{
    if parts.len() == 0 {
        Seq::empty()
    } else if parts.len() == 1 {
        parts[0]
    } else {
        slashed(parts.drop_last()).push(47u8) + parts.last()
    }
}

/// The text that `String::from_utf8_lossy` makes of bytes.
pub uninterp spec fn utf8_lossy(bytes: Seq<u8>) -> Seq<char>;

/// `String::from_utf8_lossy`: bytes as text, whatever they are. Its result
/// depends on the bytes alone; bytes that are UTF-8 give the text they encode.
#[verifier::external_body]
fn lossy_text(bytes: &[u8]) -> (r: String)
    ensures
        r@ == utf8_lossy(bytes@),
        valid_utf8(bytes@) ==> r@ == decode_utf8(bytes@),
{
    String::from_utf8_lossy(bytes).into_owned()
}

/// `String::from_utf8`: the text that the bytes encode, if they are UTF-8.
#[verifier::external_body]
fn utf8_text(bytes: Vec<u8>) -> (r: Option<String>)
    ensures
        r is Some <==> valid_utf8(bytes@),
        r matches Some(s) ==> s@ == decode_utf8(bytes@),
{
    String::from_utf8(bytes).ok()
}

/// The views of a list of names.
pub open spec fn names(v: Seq<Vec<u8>>) -> Seq<Seq<u8>> {
    v.map_values(|n: Vec<u8>| n@)
}

/// Whether two names are the same.
pub fn same_name(a: &Vec<u8>, b: &Vec<u8>) -> (r: bool)
    ensures
        r == (a@ == b@),
{
    if a.len() != b.len() {
        return false;
    }
    let mut i: usize = 0;
    while i < a.len()
        invariant
            a@.len() == b@.len(),
            i <= a@.len(),
            forall|k: int| 0 <= k < i ==> a@[k] == b@[k],
        decreases a@.len() - i,
    {
        if a[i] != b[i] {
            return false;
        }
        i += 1;
    }
    assert(a@ =~= b@);
    true
}

/// Another copy of a name.
pub fn copy_name(n: &Vec<u8>) -> (r: Vec<u8>)
    ensures
        r@ == n@,
{
    let r = n.clone();
    assert(r@ =~= n@);
    r
}

/// Another copy of a list of names.
pub fn copy_names(v: &Vec<Vec<u8>>) -> (r: Vec<Vec<u8>>)
    ensures
        names(r@) == names(v@),
{
    let mut r: Vec<Vec<u8>> = Vec::new();
    let mut i: usize = 0;
    while i < v.len()
        invariant
            i <= v@.len(),
            names(r@) =~= names(v@).take(i as int),
        decreases v@.len() - i,
    {
        let ghost before = names(r@);
        let name = copy_name(&v[i]);
        r.push(name);
        assert(names(r@) =~= before.push(name@));
        i += 1;
    }
    r
}

/// The path of a file or a directory.
#[derive(Debug)]
pub struct FsPath {
    /// Whether it starts at the root.
    pub absolute: bool,
    /// Its names, from the first to the last.
    pub parts: Vec<Vec<u8>>,
}

impl View for FsPath {
    type V = PathView;

    open spec fn view(&self) -> PathView {
        PathView { absolute: self.absolute, parts: names(self.parts@) }
    }
}

/// The views of a list of paths.
pub open spec fn paths(v: Seq<FsPath>) -> Seq<PathView> {
    v.map_values(|p: FsPath| p@)
}

impl Clone for FsPath {
    fn clone(&self) -> (r: Self)
        ensures
            r@ == self@,
    {
        self.upto(self.parts.len())
    }
}

impl FsPath {
    /// The path made of the first `n` names.
    fn upto(&self, n: usize) -> (r: FsPath)
        requires
            n <= self.parts@.len(),
        ensures
            r@ == (PathView { absolute: self.absolute, parts: self@.parts.take(n as int) }),
    {
        let mut parts: Vec<Vec<u8>> = Vec::new();
        let mut i: usize = 0;
        while i < n
            invariant
                i <= n <= self.parts@.len(),
                names(parts@) =~= names(self.parts@).take(i as int),
            decreases n - i,
        {
            let ghost before = names(parts@);
            let name = copy_name(&self.parts[i]);
            parts.push(name);
            assert(names(parts@) =~= before.push(name@));
            i += 1;
        }
        FsPath { absolute: self.absolute, parts }
    }

    /// The path of the entry `name` in this directory.
    pub fn child(&self, name: Vec<u8>) -> (r: FsPath)
        ensures
            r@ == self@.child(name@),
    {
        let mut r = self.clone();
        r.parts.push(name);
        assert(names(r.parts@) =~= self@.parts.push(name@));
        r
    }

    /// The path of the entry with the text `name` as its name.
    pub fn entry(&self, name: &str) -> (r: FsPath)
        ensures
            r@ == self@.entry(name@),
    {
        self.child(name.as_bytes_vec())
    }

    /// The directory that holds this path.
    pub fn parent(&self) -> (r: Option<FsPath>)
        ensures
            match r {
                Some(p) => self@.parent() == Some(p@),
                None => self@.parent() is None,
            },
    {
        if self.parts.len() == 0 {
            None
        } else {
            let p = self.upto(self.parts.len() - 1);
            assert(p@.parts =~= self@.parts.drop_last());
            Some(p)
        }
    }

    /// The last name, unless the path ends in a root, in `.` or in `..`.
    pub fn file_name(&self) -> (r: Option<&Vec<u8>>)
        ensures
            match r {
                Some(n) => self@.file_name() == Some(n@),
                None => self@.file_name() is None,
            },
    {
        if self.parts.len() == 0 {
            return None;
        }
        let last: &Vec<u8> = &self.parts[self.parts.len() - 1];
        assert(self@.parts.last() == last@);
        if last.len() == 1 && last[0] == 46 {
            assert(last@ =~= seq![46u8]);
            None
        } else if last.len() == 2 && last[0] == 46 && last[1] == 46 {
            assert(last@ =~= seq![46u8, 46u8]);
            None
        } else {
            Some(last)
        }
    }

    /// This path with another last name.
    pub fn with_file_name(&self, name: Vec<u8>) -> (r: FsPath)
        ensures
            r@ == self@.with_file_name(name@),
    {
        match self.file_name() {
            Some(_) => {
                let mut r = self.upto(self.parts.len() - 1);
                assert(r@.parts =~= self@.parts.drop_last());
                r.parts.push(name);
                assert(names(r.parts@) =~= self@.parts.drop_last().push(name@));
                r
            },
            None => self.child(name),
        }
    }

    /// The path as it is written.
    fn bytes(&self) -> (r: Vec<u8>)
        ensures
            r@ == self@.written(),
    {
        let mut body: Vec<u8> = Vec::new();
        let mut i: usize = 0;
        let ghost all = names(self.parts@);
        let ghost head = if self.absolute { seq![47u8] } else { Seq::empty() };
        if self.absolute {
            body.push(47);
        }
        assert(body@ =~= head + slashed(all.take(0)));
        while i < self.parts.len()
            invariant
                i <= self.parts@.len(),
                all == names(self.parts@),
                body@ == head + slashed(all.take(i as int)),
            decreases self.parts@.len() - i,
        {
            if i > 0 {
                body.push(47);
            }
            let mut name = copy_name(&self.parts[i]);
            body.append(&mut name);
            assert(all.take(i + 1).drop_last() =~= all.take(i as int));
            assert(body@ =~= head + slashed(all.take(i + 1)));
            i += 1;
        }
        assert(all.take(i as int) =~= all);
        assert(body@ =~= self@.written());
        body
    }

    /// The path as it is shown; what is not UTF-8 in it is replaced.
    pub fn display(&self) -> (r: String)
        ensures
            r@ == self@.shown(),
            valid_utf8(self@.written()) ==> r@ == decode_utf8(self@.written()),
    {
        lossy_text(self.bytes().as_slice())
    }

    /// The path as text, if it is UTF-8.
    pub fn to_text(&self) -> (r: Option<String>)
        ensures
            r is Some <==> valid_utf8(self@.written()),
            r matches Some(s) ==> s@ == decode_utf8(self@.written()),
    {
        utf8_text(self.bytes())
    }

    /// The last name as text; what is not UTF-8 in it is replaced.
    pub fn file_name_text(&self) -> (r: Option<String>)
        ensures
            match r {
                Some(s) => self@.file_name() matches Some(n) && s@ == utf8_lossy(n) && (valid_utf8(n)
                    ==> s@ == decode_utf8(n)),
                None => self@.file_name() is None,
            },
    {
        match self.file_name() {
            Some(n) => Some(lossy_text(n.as_slice())),
            None => None,
        }
    }
}

} // verus!
