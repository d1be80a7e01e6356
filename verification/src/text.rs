//! Text primitives: white space, trimming, lines and words.
//!
//! The contracts speak of a text as the sequence of its characters.

use vstd::prelude::*;

verus! {

/// `String::push` appends the character to the end of the string.
pub assume_specification[ String::push ](s: &mut String, ch: char)
    ensures
        final(s)@ == old(s)@.push(ch),
;

/// The view of an optional text.
pub open spec fn opt_text(o: Option<String>) -> Option<Seq<char>> {
    match o {
        Some(s) => Some(s@),
        None => None,
    }
}

/// The characters of `s`.
pub fn chars_of(s: &str) -> (r: Vec<char>)
    ensures
        r@ == s@,
{
    let mut r: Vec<char> = Vec::new();
    for c in it: s.chars()
        invariant
            r@ == it.seq().take(it.index()),
            it.seq() == s@,
    {
        r.push(c);
        assert(it.seq().take(it.index() + 1) =~= it.seq().take(it.index()).push(it.seq()[it.index()]));
    }
    assert(s@.take(s@.len() as int) =~= s@);
    r
}

/// The string made of the characters `cs[from..to]`.
pub fn text_of(cs: &Vec<char>, from: usize, to: usize) -> (r: String)
    requires
        from <= to <= cs@.len(),
    ensures
        r@ == cs@.subrange(from as int, to as int),
{
    let mut r = String::new();
    let mut i: usize = from;
    while i < to
        invariant
            from <= i <= to <= cs@.len(),
            r@ == cs@.subrange(from as int, i as int),
        decreases to - i,
    {
        r.push(cs[i]);
        assert(cs@.subrange(from as int, i + 1) =~= cs@.subrange(from as int, i as int).push(cs@[i as int]));
        i += 1;
    }
    r
}

/// The views of a list of texts.
pub open spec fn texts(v: Seq<String>) -> Seq<Seq<char>> {
    v.map_values(|s: String| s@)
}

/// Whether two texts hold the same characters.
pub fn same_text(a: &str, b: &str) -> (r: bool)
    ensures
        r == (a@ == b@),
{
    a.to_owned() == b.to_owned()
}

/// The characters with the Unicode property `White_Space`.
pub open spec fn white_space(c: char) -> bool {
    let n = c as u32;
    ||| 0x09 <= n <= 0x0d
    ||| n == 0x20
    ||| n == 0x85
    ||| n == 0xa0
    ||| n == 0x1680
    ||| 0x2000 <= n <= 0x200a
    ||| n == 0x2028
    ||| n == 0x2029
    ||| n == 0x202f
    ||| n == 0x205f
    ||| n == 0x3000
}

/// Whether `c` is white space.
pub fn is_white_space(c: char) -> (r: bool)
    ensures
        r == white_space(c),
{
    let n: u32 = c as u32;
    (0x09 <= n && n <= 0x0d) || n == 0x20 || n == 0x85 || n == 0xa0 || n == 0x1680 || (0x2000 <= n
        && n <= 0x200a) || n == 0x2028 || n == 0x2029 || n == 0x202f || n == 0x205f || n == 0x3000
}

/// Whether there is nothing but white space in `s`.
pub open spec fn blank(s: Seq<char>) -> bool {
    forall|i: int| 0 <= i < s.len() ==> white_space(#[trigger] s[i])
}

/// Whether there is nothing but white space in `s`.
pub fn is_blank(s: &str) -> (r: bool)
    ensures
        r == blank(s@),
{
    for c in it: s.chars()
        invariant
            it.seq() == s@,
            forall|k: int| 0 <= k < it.index() ==> white_space(#[trigger] s@[k]),
    {
        if !is_white_space(c) {
            assert(!white_space(s@[it.index()]));
            return false;
        }
    }
    true
}

/// `s` without its leading white space.
pub open spec fn trimmed_start(s: Seq<char>) -> Seq<char>
    decreases s.len(),
{
    if s.len() > 0 && white_space(s[0]) {
        trimmed_start(s.skip(1))
    } else {
        s
    }
}

/// `s` without its trailing white space.
pub open spec fn trimmed_end(s: Seq<char>) -> Seq<char>
    decreases s.len(),
{
    if s.len() > 0 && white_space(s.last()) {
        trimmed_end(s.drop_last())
    } else {
        s
    }
}

/// `s` without the white space around it.
pub open spec fn trimmed(s: Seq<char>) -> Seq<char> {
    trimmed_end(trimmed_start(s))
}

pub proof fn lemma_trimmed_start(s: Seq<char>, n: int)
    requires
        0 <= n <= s.len(),
        forall|i: int| 0 <= i < n ==> white_space(#[trigger] s[i]),
        n < s.len() ==> !white_space(s[n]),
    ensures
        trimmed_start(s) == s.skip(n),
    decreases n,
{
    if n > 0 {
        assert forall|i: int| 0 <= i < n - 1 implies white_space(#[trigger] s.skip(1)[i]) by {
            assert(s.skip(1)[i] == s[i + 1]);
        }
        lemma_trimmed_start(s.skip(1), n - 1);
        assert(s.skip(1).skip(n - 1) =~= s.skip(n));
    } else {
        assert(s.skip(0) =~= s);
    }
}

pub proof fn lemma_trimmed_end(s: Seq<char>, n: int)
    requires
        0 <= n <= s.len(),
        forall|i: int| n <= i < s.len() ==> white_space(#[trigger] s[i]),
        n > 0 ==> !white_space(s[n - 1]),
    ensures
        trimmed_end(s) == s.take(n),
    decreases s.len(),
{
    if n < s.len() {
        lemma_trimmed_end(s.drop_last(), n);
        assert(s.drop_last().take(n) =~= s.take(n));
    } else {
        assert(s.take(n) =~= s);
    }
}

/// The characters `cs[from..to]` without the white space around them, as the
/// range that is left.
fn trim_range(cs: &Vec<char>, from: usize, to: usize) -> (r: (usize, usize))
    requires
        from <= to <= cs@.len(),
    ensures
        from <= r.0 <= r.1 <= to,
        cs@.subrange(r.0 as int, r.1 as int) == trimmed(cs@.subrange(from as int, to as int)),
{
    let ghost s = cs@.subrange(from as int, to as int);
    let mut lo: usize = from;
    while lo < to && is_white_space(cs[lo])
        invariant
            from <= lo <= to <= cs@.len(),
            forall|i: int| from <= i < lo ==> white_space(#[trigger] cs@[i]),
        decreases to - lo,
    {
        lo += 1;
    }
    let mut hi: usize = to;
    while lo < hi && is_white_space(cs[hi - 1])
        invariant
            from <= lo <= hi <= to <= cs@.len(),
            forall|i: int| hi <= i < to ==> white_space(#[trigger] cs@[i]),
        decreases hi - lo,
    {
        hi -= 1;
    }
    proof {
        lemma_trimmed_start(s, lo - from);
        assert(s.skip(lo - from) =~= cs@.subrange(lo as int, to as int));
        lemma_trimmed_end(s.skip(lo - from), hi - lo);
        assert(s.skip(lo - from).take(hi - lo) =~= cs@.subrange(lo as int, hi as int));
    }
    (lo, hi)
}

/// `s` without the white space around it.
pub fn trim(s: &str) -> (r: String)
    ensures
        r@ == trimmed(s@),
{
    let cs = chars_of(s);
    let n: usize = cs.len();
    let (lo, hi) = trim_range(&cs, 0, n);
    assert(cs@.subrange(0, n as int) =~= s@);
    text_of(&cs, lo, hi)
}

/// The parts of `s` between the separators `sep`; one more than separators.
pub open spec fn pieces(s: Seq<char>, sep: char) -> Seq<Seq<char>>
    decreases s.len(),
{
    if s.len() == 0 {
        seq![Seq::<char>::empty()]
    } else {
        let p = pieces(s.drop_last(), sep);
        if s.last() == sep {
            p.push(Seq::empty())
        } else {
            p.drop_last().push(p.last().push(s.last()))
        }
    }
}

/// The lines of `s` that hold more than white space, each without the white
/// space around it.
pub open spec fn nonblank_lines(s: Seq<char>) -> Seq<Seq<char>> {
    pieces(s, '\n').map_values(|l: Seq<char>| trimmed(l)).filter(|l: Seq<char>| l.len() > 0)
}

/// The lines of `raw` that hold more than white space, trimmed.
pub fn lines_of(raw: &str) -> (r: Vec<String>)
    ensures
        texts(r@) == nonblank_lines(raw@),
{
    let cs = chars_of(raw);
    let ghost tr = |l: Seq<char>| trimmed(l);
    let ghost full = |l: Seq<char>| l.len() > 0;
    let mut r: Vec<String> = Vec::new();
    let mut start: usize = 0;
    let mut i: usize = 0;
    proof {
        reveal_with_fuel(Seq::<_>::filter, 1);
        assert(cs@.take(0) =~= Seq::empty());
        assert(cs@.subrange(0, 0) =~= Seq::empty());
        assert(pieces(cs@.take(0), '\n').drop_last().map_values(tr) =~= Seq::empty());
        assert(texts(r@) =~= Seq::empty());
    }
    while i < cs.len()
        invariant
            start <= i <= cs@.len(),
            tr == (|l: Seq<char>| trimmed(l)),
            full == (|l: Seq<char>| l.len() > 0),
            pieces(cs@.take(i as int), '\n').len() > 0,
            pieces(cs@.take(i as int), '\n').last() == cs@.subrange(start as int, i as int),
            texts(r@) == pieces(cs@.take(i as int), '\n').drop_last().map_values(tr).filter(full),
        decreases cs@.len() - i,
    {
        let ghost before = pieces(cs@.take(i as int), '\n');
        assert(cs@.take(i + 1).drop_last() =~= cs@.take(i as int));
        if cs[i] == '\n' {
            assert(pieces(cs@.take(i + 1), '\n').drop_last() =~= before);
            push_line(&mut r, &cs, start, i);
            proof {
                reveal_with_fuel(Seq::<_>::filter, 1);
                assert(before.map_values(tr).drop_last() =~= before.drop_last().map_values(tr));
                assert(cs@.subrange(i + 1, i + 1) =~= Seq::empty());
            }
            start = i + 1;
        } else {
            proof {
                assert(cs@.subrange(start as int, i + 1) =~= before.last().push(cs@[i as int]));
                assert(pieces(cs@.take(i + 1), '\n').drop_last() =~= before.drop_last());
            }
        }
        i += 1;
    }
    let ghost all = pieces(raw@, '\n');
    assert(cs@.take(i as int) =~= raw@);
    push_line(&mut r, &cs, start, i);
    assert(all.map_values(tr).drop_last() =~= all.drop_last().map_values(tr));
    r
}

/// Appends `cs[from..to]`, trimmed, unless nothing is left of it.
fn push_line(r: &mut Vec<String>, cs: &Vec<char>, from: usize, to: usize)
    requires
        from <= to <= cs@.len(),
    ensures
        ({
            let line = trimmed(cs@.subrange(from as int, to as int));
            texts(final(r)@) == if line.len() > 0 {
                texts(old(r)@).push(line)
            } else {
                texts(old(r)@)
            }
        }),
{
    let (lo, hi) = trim_range(cs, from, to);
    if lo < hi {
        let line = text_of(cs, lo, hi);
        r.push(line);
        assert(texts(r@) =~= texts(old(r)@).push(line@));
    }
}

/// The words of `s`: its longest stretches without white space.
pub open spec fn words(s: Seq<char>) -> Seq<Seq<char>>
    decreases s.len(),
{
    if s.len() == 0 {
        Seq::empty()
    } else {
        let w = words(s.drop_last());
        let c = s.last();
        if white_space(c) {
            w
        } else if s.len() == 1 || white_space(s[s.len() - 2]) {
            w.push(seq![c])
        } else {
            w.drop_last().push(w.last().push(c))
        }
    }
}

/// The parts one after the other, with `sep` between them.
pub open spec fn joined(parts: Seq<Seq<char>>, sep: Seq<char>) -> Seq<char>
    decreases parts.len(),
{
    if parts.len() == 0 {
        Seq::empty()
    } else if parts.len() == 1 {
        parts[0]
    } else {
        joined(parts.drop_last(), sep) + sep + parts.last()
    }
}

/// The words of `s` with one blank between them.
pub open spec fn collapsed(s: Seq<char>) -> Seq<char> {
    joined(words(s), seq![' '])
}

proof fn lemma_words(s: Seq<char>)
    ensures
        forall|i: int| 0 <= i < words(s).len() ==> (#[trigger] words(s)[i]).len() > 0,
        s.len() > 0 && !white_space(s.last()) ==> words(s).len() > 0,
    decreases s.len(),
{
    if s.len() > 0 {
        lemma_words(s.drop_last());
        if s.len() > 1 {
            assert(s.drop_last().last() == s[s.len() - 2]);
        }
        let w = words(s.drop_last());
        assert forall|i: int| 0 <= i < words(s).len() implies (#[trigger] words(s)[i]).len() > 0 by {
            if i < w.len() {
                assert(w[i].len() > 0);
            }
        }
    }
}

proof fn lemma_joined_grows(parts: Seq<Seq<char>>, sep: Seq<char>, c: char)
    requires
        parts.len() > 0,
    ensures
        joined(parts.drop_last().push(parts.last().push(c)), sep) == joined(parts, sep).push(c),
        joined(parts, sep).len() >= parts.last().len(),
{
    let longer = parts.drop_last().push(parts.last().push(c));
    assert(longer.drop_last() =~= parts.drop_last());
    assert(joined(longer, sep) =~= joined(parts, sep).push(c));
}

/// The words of `s` with one blank between them.
pub fn collapse(s: &str) -> (r: Vec<char>)
    ensures
        r@ == collapsed(s@),
{
    let cs = chars_of(s);
    let mut r: Vec<char> = Vec::new();
    let mut i: usize = 0;
    assert(cs@.take(0) =~= Seq::empty());
    while i < cs.len()
        invariant
            i <= cs@.len(),
            r@ == collapsed(cs@.take(i as int)),
        decreases cs@.len() - i,
    {
        let ghost before = cs@.take(i as int);
        let ghost after = cs@.take(i + 1);
        let c = cs[i];
        proof {
            assert(after.drop_last() =~= before);
            lemma_words(before);
            lemma_words(after);
            if words(before).len() > 0 {
                lemma_joined_grows(words(before), seq![' '], c);
            }
        }
        if !is_white_space(c) {
            if i == 0 || is_white_space(cs[i - 1]) {
                assert(words(after).drop_last() =~= words(before));
                if r.len() > 0 {
                    r.push(' ');
                }
                r.push(c);
                assert(r@ =~= collapsed(after));
            } else {
                assert(before.last() == cs@[i - 1]);
                r.push(c);
            }
        }
        i += 1;
    }
    assert(cs@.take(i as int) =~= s@);
    r
}

/// Whether `needle` occurs in `s`.
pub open spec fn has_part(s: Seq<char>, needle: Seq<char>) -> bool {
    exists|i: int| #[trigger] part_at(s, needle, i)
}

/// Whether `needle` occurs in `s` at position `i`.
pub open spec fn part_at(s: Seq<char>, needle: Seq<char>, i: int) -> bool {
    0 <= i && i + needle.len() <= s.len() && s.subrange(i, i + needle.len()) == needle
}

/// Whether `needle` occurs in `s`.
pub fn contains(s: &str, needle: &str) -> (r: bool)
    ensures
        r == has_part(s@, needle@),
{
    let a = chars_of(s);
    let b = chars_of(needle);
    if b.len() > a.len() {
        return false;
    }
    let last: usize = a.len() - b.len();
    let mut i: usize = 0;
    while i <= last
        invariant
            a@ == s@,
            b@ == needle@,
            last == a@.len() - b@.len(),
            a@.len() <= usize::MAX,
            i <= last + 1,
            last <= usize::MAX - 1 || b@.len() == 0,
            forall|k: int| 0 <= k < i ==> !part_at(s@, needle@, k),
        decreases last + 1 - i,
    {
        let mut j: usize = 0;
        while j < b.len() && a[i + j] == b[j]
            invariant
                i + b@.len() <= a@.len() <= usize::MAX,
                j <= b@.len(),
                forall|k: int| 0 <= k < j ==> a@[i + k] == b@[k],
            decreases b@.len() - j,
        {
            j += 1;
        }
        if j == b.len() {
            assert(a@.subrange(i as int, i + b@.len()) =~= b@);
            assert(part_at(s@, needle@, i as int));
            return true;
        }
        assert(a@.subrange(i as int, i + b@.len())[j as int] == a@[i + j]);
        i += 1;
    }
    false
}

} // verus!
