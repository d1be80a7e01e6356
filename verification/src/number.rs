//! Decimal numbers: how a number is written, and which texts are numbers.

use vstd::prelude::*;

verus! {

/// The digit that stands for `d`.
pub open spec fn digit(d: nat) -> char {
    (48 + d) as char
}

/// Whether `c` is a decimal digit.
pub open spec fn is_digit(c: char) -> bool {
    '0' <= c <= '9'
}

/// `n` in decimal, without leading zeros.
pub open spec fn decimal(n: nat) -> Seq<char>
    decreases n,
{
    if n < 10 {
        seq![digit(n)]
    } else {
        decimal(n / 10).push(digit(n % 10))
    }
}

/// The number that the digits `s` stand for.
pub open spec fn digits_value(s: Seq<char>) -> nat
    decreases s.len(),
{
    if s.len() == 0 {
        0
    } else {
        (digits_value(s.drop_last()) * 10 + (s.last() as nat - 48)) as nat
    }
}

/// Whether `s` is one digit or more, and nothing else.
pub open spec fn all_digits(s: Seq<char>) -> bool {
    s.len() > 0 && forall|i: int| 0 <= i < s.len() ==> is_digit(#[trigger] s[i])
}

/// The digits of a number that may be written with a leading plus sign.
pub open spec fn unsigned(s: Seq<char>) -> Seq<char> {
    if s.len() > 0 && s[0] == '+' {
        s.skip(1)
    } else {
        s
    }
}

/// The `u64` that `s` stands for, if it stands for one.
pub open spec fn parsed_u64(s: Seq<char>) -> Option<u64> {
    let d = unsigned(s);
    if all_digits(d) && digits_value(d) <= u64::MAX {
        Some(digits_value(d) as u64)
    } else {
        None
    }
}

/// Appends `n` in decimal.
pub fn push_decimal(t: &mut String, n: u64)
    ensures
        final(t)@ == old(t)@ + decimal(n as nat),
    decreases n,
{
    if n >= 10 {
        push_decimal(t, n / 10);
    }
    let d: u8 = (n % 10) as u8;
    t.push((48 + d) as char);
    assert(t@ =~= old(t)@ + decimal(n as nat));
}

/// `n` in decimal.
pub fn decimal_text(n: u64) -> (r: String)
    ensures
        r@ == decimal(n as nat),
{
    let mut r = String::new();
    push_decimal(&mut r, n);
    assert(r@ =~= decimal(n as nat));
    r
}

/// What is shorter than `width` gets `fill` in front of it.
pub open spec fn padded_left(s: Seq<char>, width: nat, fill: char) -> Seq<char> {
    if s.len() < width {
        Seq::new((width - s.len()) as nat, |i: int| fill) + s
    } else {
        s
    }
}

/// What is shorter than `width` gets blanks behind it.
pub open spec fn padded_right(s: Seq<char>, width: nat) -> Seq<char> {
    if s.len() < width {
        s + Seq::new((width - s.len()) as nat, |i: int| ' ')
    } else {
        s
    }
}

fn push_fill(t: &mut String, n: usize, fill: char)
    ensures
        final(t)@ == old(t)@ + Seq::new(n as nat, |i: int| fill),
{
    let mut k: usize = 0;
    assert(t@ =~= old(t)@ + Seq::new(0, |i: int| fill));
    while k < n
        invariant
            k <= n,
            t@ == old(t)@ + Seq::new(k as nat, |i: int| fill),
        decreases n - k,
    {
        t.push(fill);
        k += 1;
        assert(t@ =~= old(t)@ + Seq::new(k as nat, |i: int| fill));
    }
}

/// Appends `s`, with `fill` in front of it up to `width` characters.
pub fn push_padded_left(t: &mut String, s: &str, width: usize, fill: char)
    ensures
        final(t)@ == old(t)@ + padded_left(s@, width as nat, fill),
{
    let n: usize = s.unicode_len();
    if n < width {
        push_fill(t, width - n, fill);
    }
    t.append(s);
    assert(t@ =~= old(t)@ + padded_left(s@, width as nat, fill));
}

/// Appends `s`, with blanks behind it up to `width` characters.
pub fn push_padded_right(t: &mut String, s: &str, width: usize)
    ensures
        final(t)@ == old(t)@ + padded_right(s@, width as nat),
{
    let n: usize = s.unicode_len();
    t.append(s);
    if n < width {
        push_fill(t, width - n, ' ');
    }
    assert(t@ =~= old(t)@ + padded_right(s@, width as nat));
}

proof fn lemma_digits_value_grows(s: Seq<char>, k: int)
    requires
        0 <= k <= s.len(),
        all_digits(s),
    ensures
        digits_value(s.take(k)) <= digits_value(s),
    decreases s.len() - k,
{
    if k < s.len() {
        assert(s.take(k + 1).drop_last() =~= s.take(k));
        assert(is_digit(s[k]));
        lemma_digits_value_grows(s, k + 1);
    } else {
        assert(s.take(k) =~= s);
    }
}

/// Reads the characters `cs[from..]` as a number.
pub fn parse_u64(cs: &Vec<char>, from: usize) -> (r: Option<u64>)
    requires
        from <= cs@.len(),
    ensures
        r == parsed_u64(cs@.skip(from as int)),
{
    let ghost s = cs@.skip(from as int);
    let mut i: usize = from;
    if i < cs.len() && cs[i] == '+' {
        i += 1;
    }
    let first: usize = i;
    let ghost d = cs@.skip(first as int);
    assert(d =~= unsigned(s));
    if first == cs.len() {
        return None;
    }
    let mut v: u64 = 0;
    assert(d.take(0) =~= Seq::empty());
    while i < cs.len()
        invariant
            first <= i <= cs@.len(),
            d == cs@.skip(first as int),
            s == cs@.skip(from as int),
            d == unsigned(s),
            forall|k: int| 0 <= k < i - first ==> is_digit(#[trigger] d[k]),
            v == digits_value(d.take(i - first)),
        decreases cs@.len() - i,
    {
        let c = cs[i];
        assert(c == d[i - first]);
        if c < '0' || '9' < c {
            return None;
        }
        let x: u64 = (c as u32 - 48) as u64;
        proof {
            assert(d.take(i - first + 1).drop_last() =~= d.take(i - first));
            if all_digits(d) {
                lemma_digits_value_grows(d, i - first + 1);
            }
        }
        if v > (u64::MAX - x) / 10 {
            return None;
        }
        v = v * 10 + x;
        i += 1;
    }
    assert(d.take(i - first) =~= d);
    Some(v)
}

pub proof fn lemma_decimal_digits(n: nat)
    ensures
        all_digits(decimal(n)),
        digits_value(decimal(n)) == n,
    decreases n,
{
    reveal_with_fuel(digits_value, 2);
    if n >= 10 {
        lemma_decimal_digits(n / 10);
        assert(decimal(n).drop_last() =~= decimal(n / 10));
    } else {
        assert(decimal(n).drop_last() =~= Seq::empty());
    }
}

/// A number that is written in decimal reads back as itself.
pub proof fn decimal_reads_back(n: u64)
    ensures
        parsed_u64(decimal(n as nat)) == Some(n),
        forall|i: int| 0 <= i < decimal(n as nat).len() ==> is_digit(#[trigger] decimal(n as nat)[i]),
{
    lemma_decimal_digits(n as nat);
}

/// Two numbers that are written alike are the same number.
pub proof fn decimal_is_injective(a: nat, b: nat)
    requires
        decimal(a) == decimal(b),
    ensures
        a == b,
{
    lemma_decimal_digits(a);
    lemma_decimal_digits(b);
}

pub proof fn lemma_leading_zeros(s: Seq<char>, k: nat)
    ensures
        digits_value(Seq::new(k, |i: int| '0') + s) == digits_value(s),
    decreases s.len() + k,
{
    let z = Seq::new(k, |i: int| '0');
    if s.len() > 0 {
        lemma_leading_zeros(s.drop_last(), k);
        assert((z + s).drop_last() =~= z + s.drop_last());
    } else if k > 0 {
        let y = Seq::new((k - 1) as nat, |i: int| '0');
        lemma_leading_zeros(s, (k - 1) as nat);
        assert((z + s).drop_last() =~= y + s);
    } else {
        assert(z + s =~= s);
    }
}

/// Two numbers that are written alike with leading zeros up to a width are the
/// same number.
pub proof fn zero_padding_is_injective(a: nat, b: nat, width: nat)
    requires
        padded_left(decimal(a), width, '0') == padded_left(decimal(b), width, '0'),
    ensures
        a == b,
{
    lemma_decimal_digits(a);
    lemma_decimal_digits(b);
    lemma_leading_zeros(decimal(a), (width - decimal(a).len()) as nat);
    lemma_leading_zeros(decimal(b), (width - decimal(b).len()) as nat);
}

} // verus!
