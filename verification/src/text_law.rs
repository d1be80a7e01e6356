//! What texts are cut into, and what is left of them.

use crate::journal::{lemma_one_piece, lemma_pieces_after};
use crate::label::{is_word, lemma_words_are_words, truncated};
use crate::text::{
    blank, collapsed, has_part, joined, lemma_trimmed_end, lemma_trimmed_start, nonblank_lines,
    opt_text, part_at, pieces, texts, trimmed, white_space, words,
};
use vstd::prelude::*;

verus! {

/// White space is what Unicode calls so: these characters and no others.
pub proof fn white_space_is_these_characters(c: char)
    ensures
        white_space(c) <==> {
            ||| c == '\t' || c == '\n' || c == '\u{b}' || c == '\u{c}' || c == '\r' || c == ' '
            ||| c == '\u{85}' || c == '\u{a0}' || c == '\u{1680}' || c == '\u{2000}'
            ||| c == '\u{2001}' || c == '\u{2002}' || c == '\u{2003}' || c == '\u{2004}'
            ||| c == '\u{2005}' || c == '\u{2006}' || c == '\u{2007}' || c == '\u{2008}'
            ||| c == '\u{2009}' || c == '\u{200a}' || c == '\u{2028}' || c == '\u{2029}'
            ||| c == '\u{202f}' || c == '\u{205f}' || c == '\u{3000}'
        },
{
}

/// A list of strings is seen as the texts of the strings, in order.
pub proof fn strings_are_their_texts(v: Seq<String>)
    ensures
        texts(v).len() == v.len(),
        forall|i: int| 0 <= i < v.len() ==> #[trigger] texts(v)[i] == v[i]@,
{
}

/// A string that may be missing is seen as its text, if it is there.
pub proof fn string_is_its_text(o: Option<String>)
    ensures
        o is None <==> opt_text(o) is None,
        o matches Some(s) ==> opt_text(o) == Some(s@),
{
}

/// How many characters of white space a text starts with.
proof fn lemma_white_start(s: Seq<char>) -> (n: int)
    ensures
        0 <= n <= s.len(),
        forall|i: int| 0 <= i < n ==> white_space(#[trigger] s[i]),
        n < s.len() ==> !white_space(s[n]),
    decreases s.len(),
{
    if s.len() > 0 && white_space(s[0]) {
        let t = s.skip(1);
        let n = lemma_white_start(t);
        assert forall|i: int| 0 <= i < n + 1 implies white_space(#[trigger] s[i]) by {
            if i > 0 {
                assert(t[i - 1] == s[i]);
            }
        }
        assert(n < t.len() ==> t[n] == s[n + 1]);
        n + 1
    } else {
        0
    }
}

/// Where the white space starts that a text ends with.
proof fn lemma_white_end(s: Seq<char>) -> (n: int)
    ensures
        0 <= n <= s.len(),
        forall|i: int| n <= i < s.len() ==> white_space(#[trigger] s[i]),
        n > 0 ==> !white_space(s[n - 1]),
    decreases s.len(),
{
    if s.len() > 0 && white_space(s.last()) {
        let t = s.drop_last();
        let n = lemma_white_end(t);
        assert forall|i: int| n <= i < s.len() implies white_space(#[trigger] s[i]) by {
            if i < t.len() {
                assert(t[i] == s[i]);
            }
        }
        assert(n > 0 ==> t[n - 1] == s[n - 1]);
        n
    } else {
        s.len() as int
    }
}

/// Trimming a text cuts white space off its two ends, all that is there, and nothing
/// else.
pub proof fn trimming_cuts_white_space_alone(s: Seq<char>)
    ensures
        exists|a: int, b: int|
            #![trigger s.subrange(a, b)]
            {
                &&& 0 <= a <= b <= s.len()
                &&& trimmed(s) == s.subrange(a, b)
                &&& forall|i: int| 0 <= i < a ==> white_space(#[trigger] s[i])
                &&& forall|i: int| b <= i < s.len() ==> white_space(#[trigger] s[i])
                &&& a < b ==> !white_space(s[a]) && !white_space(s[b - 1])
            },
{
    let a = lemma_white_start(s);
    lemma_trimmed_start(s, a);
    let t = s.skip(a);
    let n = lemma_white_end(t);
    lemma_trimmed_end(t, n);
    let b = a + n;
    assert(t.take(n) =~= s.subrange(a, b));
    assert forall|i: int| b <= i < s.len() implies white_space(#[trigger] s[i]) by {
        assert(t[i - a] == s[i]);
    }
    if a < b {
        assert(t[n - 1] == s[b - 1]);
    }
}

/// Where a text is cut at a separator, no piece holds one, and the pieces make up the
/// text.
pub proof fn pieces_make_up_the_text(s: Seq<char>, sep: char)
    ensures
        pieces(s, sep).len() > 0,
        joined(pieces(s, sep), seq![sep]) == s,
        forall|i: int, k: int|
            0 <= i < pieces(s, sep).len() && 0 <= k < pieces(s, sep)[i].len()
                ==> #[trigger] pieces(s, sep)[i][k] != sep,
    decreases s.len(),
{
    if s.len() > 0 {
        let t = s.drop_last();
        let p = pieces(t, sep);
        let q = pieces(s, sep);
        let c = s.last();
        pieces_make_up_the_text(t, sep);
        if c == sep {
            let none = Seq::<char>::empty();
            assert(q.drop_last() =~= p);
            assert(joined(q, seq![sep]) == joined(p, seq![sep]) + seq![sep] + none);
            assert(t + seq![sep] + none =~= s);
        } else {
            assert(q.drop_last() =~= p.drop_last());
            assert(joined(q, seq![sep]) =~= joined(p, seq![sep]).push(c));
            assert(t.push(c) =~= s);
        }
        assert forall|i: int, k: int| 0 <= i < q.len() && 0 <= k < q[i].len() implies #[trigger] q[i][k]
            != sep by {
            if i < q.len() - 1 || c == sep {
                if i < p.len() {
                    assert(q[i] == p[i]);
                    assert(p[i][k] != sep);
                }
            } else if k < p.last().len() {
                assert(p[p.len() - 1][k] != sep);
            }
        }
    } else {
        assert(pieces(s, sep) =~= seq![Seq::<char>::empty()]);
        assert(s =~= Seq::empty());
    }
}

/// The texts one after the other: none is nothing, one is itself, and one more comes
/// after a separator.
pub proof fn joining_puts_one_after_the_other(
    parts: Seq<Seq<char>>,
    sep: Seq<char>,
    one: Seq<char>,
)
    ensures
        joined(Seq::empty(), sep).len() == 0,
        joined(seq![one], sep) == one,
        parts.len() > 0 ==> joined(parts.push(one), sep) == joined(parts, sep) + sep + one,
{
    assert(parts.push(one).drop_last() =~= parts);
}

/// A text of one line has that line, trimmed, unless it is blank; and the lines of two
/// texts with a line end between them are those of the one and those of the other.
pub proof fn lines_are_read_one_by_one(a: Seq<char>, b: Seq<char>)
    ensures
        !a.contains('\n') ==> nonblank_lines(a) == if blank(a) {
            Seq::empty()
        } else {
            seq![trimmed(a)]
        },
        nonblank_lines(a.push('\n') + b) == nonblank_lines(a) + nonblank_lines(b),
{
    let tr = |l: Seq<char>| trimmed(l);
    let full = |l: Seq<char>| l.len() > 0;
    let none = Seq::<char>::empty();
    if !a.contains('\n') {
        lemma_one_piece(a);
        trimming_cuts_white_space_alone(a);
        let (x, y) = choose|x: int, y: int|
            #![trigger a.subrange(x, y)]
            {
                &&& 0 <= x <= y <= a.len()
                &&& trimmed(a) == a.subrange(x, y)
                &&& forall|i: int| 0 <= i < x ==> white_space(#[trigger] a[i])
                &&& forall|i: int| y <= i < a.len() ==> white_space(#[trigger] a[i])
                &&& x < y ==> !white_space(a[x]) && !white_space(a[y - 1])
            };
        if blank(a) {
            assert(!(x < y)) by {
                if x < y {
                    assert(white_space(a[x]));
                }
            }
        } else if x == y {
            assert forall|i: int| 0 <= i < a.len() implies white_space(#[trigger] a[i]) by {}
        }
        assert(seq![a].map_values(tr) =~= seq![trimmed(a)]);
        reveal_with_fuel(Seq::<_>::filter, 2);
        assert(seq![trimmed(a)].drop_last() =~= Seq::empty());
        assert(nonblank_lines(a) =~= if blank(a) {
            Seq::empty()
        } else {
            seq![trimmed(a)]
        });
    }
    let c = a.push('\n');
    lemma_pieces_after(c, b);
    assert(c.drop_last() =~= a);
    assert(pieces(c, '\n').drop_last() =~= pieces(a, '\n'));
    assert((pieces(a, '\n') + pieces(b, '\n')).map_values(tr) =~= pieces(a, '\n').map_values(tr)
        + pieces(b, '\n').map_values(tr));
    Seq::filter_distributes_over_add(
        pieces(a, '\n').map_values(tr),
        pieces(b, '\n').map_values(tr),
        full,
    );
}

/// The words of a text are its longest stretches without white space: a stretch is one
/// word, and white space parts the words before it from those after it.
pub proof fn words_are_parted_by_white_space(a: Seq<char>, c: char, b: Seq<char>)
    ensures
        words(Seq::empty()).len() == 0,
        is_word(a) ==> words(a) == seq![a],
        white_space(c) ==> words(a.push(c) + b) == words(a) + words(b),
    decreases a.len() + b.len(),
{
    if is_word(a) {
        lemma_one_word(a);
    }
    if white_space(c) {
        let s = a.push(c) + b;
        if b.len() == 0 {
            assert(s =~= a.push(c));
            assert(a.push(c).drop_last() =~= a);
            assert(words(a) + words(b) =~= words(a));
        } else {
            let t = b.drop_last();
            let d = b.last();
            words_are_parted_by_white_space(a, c, t);
            assert(s.drop_last() =~= a.push(c) + t);
            assert(s.last() == d);
            let (v, w) = (words(a), words(t));
            lemma_words_are_words(t);
            if white_space(d) {
                assert(words(s) == v + w);
            } else if b.len() == 1 {
                assert(s[s.len() - 2] == c);
                assert(t =~= Seq::empty());
                assert((v + w).push(seq![d]) =~= v + w.push(seq![d]));
            } else if white_space(b[b.len() - 2]) {
                assert(s[s.len() - 2] == b[b.len() - 2]);
                assert((v + w).push(seq![d]) =~= v + w.push(seq![d]));
            } else {
                assert(s[s.len() - 2] == b[b.len() - 2]);
                assert(t.last() == b[b.len() - 2]);
                assert(w.len() > 0);
                assert((v + w).drop_last().push((v + w).last().push(d)) =~= v + w.drop_last().push(
                    w.last().push(d),
                ));
            }
        }
    }
}

proof fn lemma_one_word(s: Seq<char>)
    requires
        is_word(s),
    ensures
        words(s) == seq![s],
    decreases s.len(),
{
    let t = s.drop_last();
    assert(!white_space(s[s.len() - 1]));
    if t.len() > 0 {
        assert forall|i: int| 0 <= i < t.len() implies !white_space(#[trigger] t[i]) by {
            assert(t[i] == s[i]);
        }
        lemma_one_word(t);
        assert(!white_space(s[s.len() - 2]));
        assert(t.push(s.last()) =~= s);
        assert(words(s) =~= seq![s]);
    } else {
        reveal_with_fuel(words, 2);
        assert(words(t) =~= Seq::empty());
        assert(s =~= seq![s.last()]);
        assert(words(s) =~= seq![seq![s.last()]]);
    }
}

proof fn lemma_words_of_joined(parts: Seq<Seq<char>>)
    requires
        forall|i: int| 0 <= i < parts.len() ==> is_word(#[trigger] parts[i]),
    ensures
        words(joined(parts, seq![' '])) == parts,
    decreases parts.len(),
{
    if parts.len() == 1 {
        assert(is_word(parts[0]));
        lemma_one_word(parts[0]);
        assert(parts =~= seq![parts[0]]);
    } else if parts.len() > 1 {
        let front = parts.drop_last();
        let w = parts.last();
        assert forall|i: int| 0 <= i < front.len() implies is_word(#[trigger] front[i]) by {
            assert(front[i] == parts[i]);
        }
        assert(is_word(parts[parts.len() - 1]));
        lemma_words_of_joined(front);
        lemma_one_word(w);
        let a = joined(front, seq![' ']);
        words_are_parted_by_white_space(a, ' ', w);
        assert(a + seq![' '] + w =~= a.push(' ') + w);
        assert(front + seq![w] =~= parts);
    } else {
        assert(parts =~= Seq::empty());
        assert(words(joined(parts, seq![' '])) =~= parts);
    }
}

/// Collapsing the white space of a text keeps its words, and puts one blank between
/// them.
pub proof fn collapsing_keeps_the_words(s: Seq<char>)
    ensures
        words(collapsed(s)) == words(s),
        collapsed(s) == joined(words(s), seq![' ']),
{
    lemma_words_are_words(s);
    lemma_words_of_joined(words(s));
}

/// A label that fits is all of the text, with its white space collapsed; one that does
/// not is its beginning, as much as fits before the mark that ends it.
pub proof fn label_is_the_beginning_of_the_text(s: Seq<char>, max: nat)
    ensures
        joined(words(s), seq![' ']).len() <= max ==> truncated(s, max) == joined(
            words(s),
            seq![' '],
        ),
        joined(words(s), seq![' ']).len() > max ==> {
            let cut = truncated(s, max);
            &&& cut.len() == if max > 0 {
                max
            } else {
                1
            }
            &&& cut.last() == '\u{2026}'
            &&& cut.drop_last().is_prefix_of(joined(words(s), seq![' ']))
        },
{
    let c = joined(words(s), seq![' ']);
    if c.len() > max {
        let cut = truncated(s, max);
        assert(cut.drop_last() =~= c.take(cut.len() - 1));
    }
}

/// A part occurs in a text where the text is the part, with something before it and
/// something behind it.
pub proof fn part_is_within_the_text(s: Seq<char>, part: Seq<char>)
    ensures
        has_part(s, part) <==> exists|a: Seq<char>, b: Seq<char>| s == #[trigger] (a + part + b),
{
    if has_part(s, part) {
        let i = choose|i: int| #[trigger] part_at(s, part, i);
        let a = s.take(i);
        let b = s.skip(i + part.len());
        assert(s =~= a + part + b);
    }
    if exists|a: Seq<char>, b: Seq<char>| s == #[trigger] (a + part + b) {
        let (a, b) = choose|a: Seq<char>, b: Seq<char>| s == #[trigger] (a + part + b);
        assert(s.subrange(a.len() as int, (a.len() + part.len()) as int) =~= part);
        assert(part_at(s, part, a.len() as int));
    }
}

/// A text is blank where every character of it is white space.
pub proof fn blank_is_white_space_alone(s: Seq<char>)
    ensures
        blank(s) <==> forall|i: int| 0 <= i < s.len() ==> white_space(#[trigger] s[i]),
        blank(s) <==> trimmed(s).len() == 0,
{
    trimming_cuts_white_space_alone(s);
    let (a, b) = choose|a: int, b: int|
        #![trigger s.subrange(a, b)]
        {
            &&& 0 <= a <= b <= s.len()
            &&& trimmed(s) == s.subrange(a, b)
            &&& forall|i: int| 0 <= i < a ==> white_space(#[trigger] s[i])
            &&& forall|i: int| b <= i < s.len() ==> white_space(#[trigger] s[i])
            &&& a < b ==> !white_space(s[a]) && !white_space(s[b - 1])
        };
    if blank(s) && a < b {
        assert(white_space(s[a]));
    }
}

} // verus!
