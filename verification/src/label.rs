//! Labels that are cut to fit on a line.

use crate::text::{collapse, collapsed, joined, text_of, white_space, words};
use vstd::prelude::*;

verus! {

/// What ends a label that was cut.
pub const ELLIPSIS: char = '\u{2026}';

/// `s` with its white space collapsed, cut to `max` characters where it is
/// longer.
pub open spec fn truncated(s: Seq<char>, max: nat) -> Seq<char> {
    let c = collapsed(s);
    if c.len() <= max {
        c
    } else {
        let room = if max > 0 {
            (max - 1) as nat
        } else {
            0
        };
        c.take(room as int).push(ELLIPSIS)
    }
}

/// `s` with its white space collapsed, cut to `max` characters where it is
/// longer.
pub fn truncate(s: &str, max: usize) -> (r: String)
    ensures
        r@ == truncated(s@, max as nat),
{
    let cs = collapse(s);
    let n: usize = cs.len();
    if n <= max {
        assert(cs@.subrange(0, n as int) =~= cs@);
        return text_of(&cs, 0, n);
    }
    let room: usize = max.saturating_sub(1);
    let mut r = text_of(&cs, 0, room);
    r.push(ELLIPSIS);
    assert(cs@.subrange(0, room as int) =~= cs@.take(room as int));
    r
}

/// Whether a text is on one line, with single blanks between its words and none
/// around it.
pub open spec fn tidy(s: Seq<char>) -> bool {
    &&& s.len() > 0 ==> !white_space(s[0])
    &&& s.len() > 0 ==> !white_space(s.last())
    &&& forall|i: int| 0 <= i < s.len() && white_space(#[trigger] s[i]) ==> s[i] == ' '
    &&& forall|i: int|
        0 < i < s.len() && white_space(#[trigger] s[i]) ==> !white_space(s[i - 1])
}

/// Whether a text is tidy but for a blank that may end it.
spec fn tidy_front(s: Seq<char>) -> bool {
    &&& s.len() > 0 ==> !white_space(s[0])
    &&& forall|i: int| 0 <= i < s.len() && white_space(#[trigger] s[i]) ==> s[i] == ' '
    &&& forall|i: int|
        0 < i < s.len() && white_space(#[trigger] s[i]) ==> !white_space(s[i - 1])
}

pub open spec fn is_word(w: Seq<char>) -> bool {
    w.len() > 0 && forall|i: int| 0 <= i < w.len() ==> !white_space(#[trigger] w[i])
}

pub proof fn lemma_words_are_words(s: Seq<char>)
    ensures
        forall|i: int| 0 <= i < words(s).len() ==> is_word(#[trigger] words(s)[i]),
        s.len() > 0 && !white_space(s.last()) ==> words(s).len() > 0,
    decreases s.len(),
{
    if s.len() > 0 {
        let t = s.drop_last();
        lemma_words_are_words(t);
        let w = words(t);
        let c = s.last();
        if !white_space(c) && s.len() > 1 {
            assert(t.last() == s[s.len() - 2]);
        }
        assert forall|i: int| 0 <= i < words(s).len() implies is_word(#[trigger] words(s)[i]) by {
            if i < w.len() {
                assert(is_word(w[i]));
            }
            if !white_space(c) && i == words(s).len() - 1 && !(s.len() == 1 || white_space(
                s[s.len() - 2],
            )) {
                assert(is_word(w[w.len() - 1]));
                assert(words(s)[i] == w.last().push(c));
            }
        }
    }
}

proof fn lemma_joined_tidy(parts: Seq<Seq<char>>)
    requires
        forall|i: int| 0 <= i < parts.len() ==> is_word(#[trigger] parts[i]),
    ensures
        tidy(joined(parts, seq![' '])),
        parts.len() > 0 ==> joined(parts, seq![' ']).len() > 0,
    decreases parts.len(),
{
    if parts.len() == 1 {
        let w = parts[0];
        assert(is_word(w));
        assert(!white_space(w[0]));
        assert(!white_space(w[w.len() - 1]));
    } else if parts.len() > 1 {
        let front = parts.drop_last();
        assert forall|i: int| 0 <= i < front.len() implies is_word(#[trigger] front[i]) by {
            assert(front[i] == parts[i]);
        }
        lemma_joined_tidy(front);
        let a = joined(front, seq![' ']);
        let w = parts.last();
        assert(is_word(parts[parts.len() - 1]));
        let s = a + seq![' '] + w;
        assert(joined(parts, seq![' ']) == s);
        assert(s[0] == a[0]);
        assert(s.last() == w[w.len() - 1]);
        assert forall|i: int| 0 <= i < s.len() && white_space(#[trigger] s[i]) implies s[i] == ' ' by {
            if i < a.len() {
                assert(s[i] == a[i]);
            } else if i > a.len() {
                assert(s[i] == w[i - a.len() - 1]);
            }
        }
        assert forall|i: int| 0 < i < s.len() && white_space(#[trigger] s[i]) implies !white_space(
            s[i - 1],
        ) by {
            if i < a.len() {
                assert(s[i] == a[i]);
                assert(s[i - 1] == a[i - 1]);
            } else if i == a.len() {
                assert(s[i - 1] == a.last());
            } else {
                assert(s[i] == w[i - a.len() - 1]);
            }
        }
    }
}

/// What is tidy stays as it is when its white space is collapsed.
proof fn lemma_tidy_stays(s: Seq<char>)
    requires
        tidy_front(s),
    ensures
        collapsed(s) == if s.len() > 0 && white_space(s.last()) {
            s.drop_last()
        } else {
            s
        },
    decreases s.len(),
{
    if s.len() > 0 {
        let t = s.drop_last();
        let c = s.last();
        assert(tidy_front(t)) by {
            assert forall|i: int| 0 <= i < t.len() && white_space(#[trigger] t[i]) implies t[i]
                == ' ' by {
                assert(t[i] == s[i]);
            }
            assert forall|i: int|
                0 < i < t.len() && white_space(#[trigger] t[i]) implies !white_space(t[i - 1]) by {
                assert(t[i] == s[i]);
                assert(t[i - 1] == s[i - 1]);
            }
        }
        lemma_tidy_stays(t);
        lemma_words_are_words(t);
        let w = words(t);
        if white_space(c) {
            assert(s[s.len() - 1] == c);
            if s.len() > 1 {
                assert(t.last() == s[s.len() - 2]);
            }
        } else if s.len() == 1 {
            assert(t =~= Seq::empty());
            assert(words(s) =~= seq![seq![c]]);
            assert(joined(seq![seq![c]], seq![' ']) == seq![c]);
            assert(s =~= seq![c]);
        } else if white_space(s[s.len() - 2]) {
            // a new word
            assert(t.last() == s[s.len() - 2]);
            assert(t.last() == ' ');
            let u = t.drop_last();
            assert(collapsed(t) == u);
            assert(t.len() > 1) by {
                assert(!white_space(s[0]));
            }
            assert(u.len() > 0);
            assert(w.len() > 0) by {
                if w.len() == 0 {
                    assert(joined(w, seq![' ']).len() == 0);
                }
            }
            assert(words(s).drop_last() =~= w);
            assert(words(s).last() =~= seq![c]);
            assert(collapsed(s) == u + seq![' '] + seq![c]);
            assert(u + seq![' '] + seq![c] =~= s);
        } else {
            assert(t.last() == s[s.len() - 2]);
            assert(collapsed(t) == t);
            let longer = w.drop_last().push(w.last().push(c));
            assert(longer.drop_last() =~= w.drop_last());
            assert(joined(longer, seq![' ']) =~= joined(w, seq![' ']).push(c));
            assert(t.push(c) =~= s);
        }
    } else {
        assert(s =~= Seq::empty());
    }
}

/// A label is on one line, with single blanks between its words and none around
/// it.
pub proof fn label_is_tidy(s: Seq<char>, max: nat)
    ensures
        tidy(truncated(s, max)),
{
    let c = collapsed(s);
    lemma_words_are_words(s);
    lemma_joined_tidy(words(s));
    if c.len() > max {
        let room = if max > 0 {
            (max - 1) as nat
        } else {
            0
        };
        let t = c.take(room as int).push(ELLIPSIS);
        assert forall|i: int| 0 <= i < t.len() && white_space(#[trigger] t[i]) implies t[i] == ' ' by {
            if i < room {
                assert(t[i] == c[i]);
            }
        }
        assert forall|i: int| 0 < i < t.len() && white_space(#[trigger] t[i]) implies !white_space(
            t[i - 1],
        ) by {
            assert(i < room);
            assert(t[i] == c[i]);
            assert(t[i - 1] == c[i - 1]);
        }
    }
}

/// A label is at most as long as it may be.
pub proof fn label_fits(s: Seq<char>, max: nat)
    requires
        max > 0,
    ensures
        truncated(s, max).len() <= max,
{
}

/// A label that is cut again stays as it is.
pub proof fn label_stays(s: Seq<char>, max: nat)
    ensures
        truncated(truncated(s, max), max) == truncated(s, max),
{
    let t = truncated(s, max);
    label_is_tidy(s, max);
    lemma_tidy_stays(t);
    if t.len() > max {
        assert(max == 0);
        assert(t =~= seq![ELLIPSIS]);
        assert(t.take(0).push(ELLIPSIS) =~= t);
    }
}

} // verus!
