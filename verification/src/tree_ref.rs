//! How a tree is named: by the number of a checkpoint, or as the live
//! workspace.

use crate::error::{Error, ErrorView};
use crate::number::{decimal, decimal_reads_back, is_digit, parse_u64, parsed_u64, push_decimal};
use crate::number_law::{number_is_read_where_it_is_written, written_number};
use crate::path::{FsPath, PathView};
use crate::store::{Store, StoreView};
use crate::text::chars_of;
use vstd::prelude::*;

verus! {

/// A checkpoint, or the live workspace.
#[derive(Debug, PartialEq, Eq, Structural, Clone, Copy)]
pub enum TreeRef {
    Live,
    Id(u64),
}

/// Whether `s` is `live`, in capital or small letters.
pub open spec fn says_live(s: Seq<char>) -> bool {
    &&& s.len() == 4
    &&& (s[0] == 'l' || s[0] == 'L')
    &&& (s[1] == 'i' || s[1] == 'I')
    &&& (s[2] == 'v' || s[2] == 'V')
    &&& (s[3] == 'e' || s[3] == 'E')
}

/// `s` without the hash signs in front of it.
pub open spec fn without_hashes(s: Seq<char>) -> Seq<char>
    decreases s.len(),
{
    if s.len() > 0 && s[0] == '#' {
        without_hashes(s.skip(1))
    } else {
        s
    }
}

/// The tree that `s` names, if it names one.
pub open spec fn tree_named(s: Seq<char>) -> Option<TreeRef> {
    if says_live(s) {
        Some(TreeRef::Live)
    } else {
        match parsed_u64(without_hashes(s)) {
            Some(id) => Some(TreeRef::Id(id)),
            None => None,
        }
    }
}

impl TreeRef {
    /// How the tree is called.
    pub open spec fn name(self) -> Seq<char> {
        match self {
            TreeRef::Live => "live"@,
            TreeRef::Id(id) => "#"@ + decimal(id as nat),
        }
    }

    /// Where the tree is.
    pub open spec fn place(self, store: StoreView) -> PathView {
        match self {
            TreeRef::Live => store.root,
            TreeRef::Id(id) => store.tree(id),
        }
    }

    /// Reads the name of a tree.
    pub fn parse(s: &str) -> (r: Result<TreeRef, Error>)
        ensures
            match r {
                Ok(t) => tree_named(s@) == Some(t),
                Err(e) => tree_named(s@) is None && e@ == ErrorView::BadTreeRef(s@),
            },
    {
        let cs = chars_of(s);
        if cs.len() == 4 && (cs[0] == 'l' || cs[0] == 'L') && (cs[1] == 'i' || cs[1] == 'I') && (
        cs[2] == 'v' || cs[2] == 'V') && (cs[3] == 'e' || cs[3] == 'E') {
            return Ok(TreeRef::Live);
        }
        let mut i: usize = 0;
        assert(cs@.skip(0) =~= cs@);
        while i < cs.len() && cs[i] == '#'
            invariant
                i <= cs@.len(),
                without_hashes(cs@.skip(i as int)) == without_hashes(cs@),
            decreases cs@.len() - i,
        {
            assert(cs@.skip(i as int).skip(1) =~= cs@.skip(i + 1));
            i += 1;
        }
        match parse_u64(&cs, i) {
            Some(id) => Ok(TreeRef::Id(id)),
            None => Err(Error::BadTreeRef(s.to_owned())),
        }
    }

    /// How the tree is called.
    pub fn label(&self) -> (r: String)
        ensures
            r@ == self.name(),
    {
        match self {
            TreeRef::Live => "live".to_owned(),
            TreeRef::Id(id) => {
                let mut r = "#".to_owned();
                push_decimal(&mut r, *id);
                r
            },
        }
    }

    /// Where the tree is, and how it is called: `is_dir` says whether the tree
    /// of the checkpoint is there.
    pub fn resolve(&self, store: &Store, is_dir: bool) -> (r: Result<(FsPath, String), Error>)
        ensures
            match r {
                Ok((path, name)) => {
                    &&& self is Live || is_dir
                    &&& path@ == self.place(store@)
                    &&& name@ == self.name()
                },
                Err(e) => self matches TreeRef::Id(id) && !is_dir && e@ == ErrorView::NoTree(*id),
            },
    {
        match self {
            TreeRef::Live => Ok((store.root.clone(), self.label())),
            TreeRef::Id(id) => {
                if is_dir {
                    Ok((store.tree(*id), self.label()))
                } else {
                    Err(Error::NoTree(*id))
                }
            },
        }
    }
}

/// A tree is named by what it is called.
pub proof fn name_reads_back(t: TreeRef)
    ensures
        tree_named(t.name()) == Some(t),
{
    match t {
        TreeRef::Live => {
            reveal_strlit("live");
            assert(t.name() =~= seq!['l', 'i', 'v', 'e']);
        },
        TreeRef::Id(id) => {
            reveal_strlit("#");
            let digits = decimal(id as nat);
            decimal_reads_back(id);
            assert(t.name()[0] == '#');
            assert(t.name().skip(1) =~= digits);
            assert(is_digit(digits[0]));
            assert(without_hashes(digits) == digits);
        },
    }
}

/// A checkpoint is also named by its bare number.
pub proof fn number_names_checkpoint(id: u64)
    ensures
        tree_named(decimal(id as nat)) == Some(TreeRef::Id(id)),
{
    let digits = decimal(id as nat);
    decimal_reads_back(id);
    assert(digits.len() > 0);
    assert(is_digit(digits[0]));
}

/// A text names the live workspace where it says `live`, in letters of any size.
pub proof fn live_is_read_in_any_letters(s: Seq<char>)
    ensures
        tree_named(s) == Some(TreeRef::Live) <==> s.len() == 4 && forall|i: int|
            0 <= i < 4 ==> #[trigger] s[i] == seq!['l', 'i', 'v', 'e'][i] || s[i] == seq![
                'L',
                'I',
                'V',
                'E',
            ][i],
{
    if s.len() == 4 && forall|i: int|
        0 <= i < 4 ==> #[trigger] s[i] == seq!['l', 'i', 'v', 'e'][i] || s[i] == seq![
            'L',
            'I',
            'V',
            'E',
        ][i] {
        assert(s[0] == 'l' || s[0] == 'L');
        assert(s[1] == 'i' || s[1] == 'I');
        assert(s[2] == 'v' || s[2] == 'V');
        assert(s[3] == 'e' || s[3] == 'E');
    }
}

proof fn lemma_hashes(s: Seq<char>) -> (k: nat)
    ensures
        s == Seq::new(k, |i: int| '#') + without_hashes(s),
        without_hashes(s).len() > 0 ==> without_hashes(s)[0] != '#',
    decreases s.len(),
{
    if s.len() > 0 && s[0] == '#' {
        let k = lemma_hashes(s.skip(1));
        let rest = s.skip(1);
        assert(s =~= seq!['#'] + rest);
        assert(s =~= Seq::new(k + 1, |i: int| '#') + without_hashes(rest));
        k + 1
    } else {
        assert(s =~= Seq::new(0, |i: int| '#') + s);
        0
    }
}

proof fn lemma_strip_hashes(k: nat, t: Seq<char>)
    requires
        t.len() > 0 ==> t[0] != '#',
    ensures
        without_hashes(Seq::new(k, |i: int| '#') + t) == t,
    decreases k,
{
    let s = Seq::new(k, |i: int| '#') + t;
    if k > 0 {
        assert(s[0] == '#');
        assert(s.skip(1) =~= Seq::new((k - 1) as nat, |i: int| '#') + t);
        lemma_strip_hashes((k - 1) as nat, t);
    } else {
        assert(s =~= t);
    }
}

/// A text names a checkpoint where it is the number of the checkpoint, after hash signs
/// or none; the number may be written with zeros and a plus sign in front.
pub proof fn checkpoint_is_read_by_its_number(s: Seq<char>, id: u64)
    ensures
        tree_named(s) == Some(TreeRef::Id(id)) <==> exists|hashes: nat, plus: bool, zeros: nat|
            s == #[trigger] hashed_number(id, hashes, plus, zeros),
{
    if tree_named(s) == Some(TreeRef::Id(id)) {
        let k = lemma_hashes(s);
        let t = without_hashes(s);
        number_is_read_where_it_is_written(t, id);
        let (plus, zeros) = choose|plus: bool, zeros: nat|
            t == #[trigger] written_number(id as nat, plus, zeros);
        assert(s == hashed_number(id, k, plus, zeros));
    }
    if exists|hashes: nat, plus: bool, zeros: nat|
        s == #[trigger] hashed_number(id, hashes, plus, zeros) {
        let (k, plus, zeros) = choose|hashes: nat, plus: bool, zeros: nat|
            s == #[trigger] hashed_number(id, hashes, plus, zeros);
        let t = written_number(id as nat, plus, zeros);
        decimal_reads_back(id);
        let d = decimal(id as nat);
        number_is_read_where_it_is_written(t, id);
        assert(t[0] == '+' || is_digit(t[0])) by {
            if !plus && zeros == 0 {
                assert(t[0] == d[0]);
                assert(is_digit(d[0]));
            }
        }
        lemma_strip_hashes(k, t);
        assert(t.last() == d.last());
        assert(is_digit(d[d.len() - 1]));
        assert(s.last() == t.last());
    }
}

/// The number of a checkpoint after hash signs, and after a plus sign and zeros where it
/// is so written.
pub open spec fn hashed_number(id: u64, hashes: nat, plus: bool, zeros: nat) -> Seq<char> {
    Seq::new(hashes, |i: int| '#') + written_number(id as nat, plus, zeros)
}

/// The live workspace is where the store belongs, and a checkpoint is its tree; each is
/// called by what names it.
pub proof fn tree_is_where_it_is_named(store: StoreView, id: u64)
    ensures
        TreeRef::Live.place(store) == store.root,
        TreeRef::Id(id).place(store) == store.tree(id),
        TreeRef::Live.name() == "live"@,
        TreeRef::Id(id).name() == seq!['#'] + decimal(id as nat),
{
    reveal_strlit("#");
    assert("#"@ =~= seq!['#']);
}

} // verus!
