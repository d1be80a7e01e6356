//! How numbers are written and read.

use crate::number::{
    all_digits, decimal, digit, digits_value, is_digit, lemma_decimal_digits, lemma_leading_zeros,
    padded_left, padded_right, parsed_u64, unsigned,
};
use vstd::prelude::*;

verus! {

/// The digits, from the smallest to the greatest.
pub open spec fn digits() -> Seq<char> {
    seq!['0', '1', '2', '3', '4', '5', '6', '7', '8', '9']
}

/// Numbers below ten are written as one digit, and others as their tens with the digit
/// for the rest behind them.
pub proof fn decimal_is_written_digit_by_digit(n: nat, d: nat)
    requires
        d < 10,
    ensures
        decimal(d) == seq![digits()[d as int]],
        n > 0 ==> decimal(10 * n + d) == decimal(n).push(digits()[d as int]),
{
    assert(digits()[d as int] == digit(d));
    if n > 0 {
        assert((10 * n + d) / 10 == n);
        assert((10 * n + d) % 10 == d);
    }
}

/// A digit behind others counts for what it is, and those before it ten times over.
pub proof fn digits_count_by_their_place(s: Seq<char>, d: nat)
    requires
        d < 10,
    ensures
        digits_value(Seq::empty()) == 0,
        digits_value(s.push(digits()[d as int])) == 10 * digits_value(s) + d,
        is_digit(digits()[d as int]),
{
    assert(digits()[d as int] == digit(d));
    assert(s.push(digit(d)).drop_last() =~= s);
}

/// No number but zero is written with a zero in front.
pub proof fn decimal_has_no_leading_zero(n: nat)
    ensures
        decimal(n).len() > 0,
        n > 0 ==> decimal(n)[0] != '0',
        n == 0 ==> decimal(n) == seq!['0'],
    decreases n,
{
    if n >= 10 {
        decimal_has_no_leading_zero(n / 10);
        assert(decimal(n)[0] == decimal(n / 10)[0]);
    } else {
        assert(digits()[n as int] == digit(n));
    }
}

/// Digits are a number in decimal, after as many zeros as there are too many.
proof fn lemma_zeros_and_decimal(s: Seq<char>) -> (k: nat)
    requires
        all_digits(s),
    ensures
        s == Seq::new(k, |i: int| '0') + decimal(digits_value(s)),
    decreases s.len(),
{
    let t = s.drop_last();
    let c = s.last();
    assert(is_digit(s[s.len() - 1]));
    let d = (c as nat - 48) as nat;
    assert(digit(d) == c);
    if t.len() == 0 {
        assert(t =~= Seq::empty());
        assert(digits_value(t) == 0);
        assert(s =~= Seq::new(0, |i: int| '0') + decimal(digits_value(s)));
        0
    } else {
        assert forall|i: int| 0 <= i < t.len() implies is_digit(#[trigger] t[i]) by {
            assert(t[i] == s[i]);
        }
        let k = lemma_zeros_and_decimal(t);
        let m = digits_value(t);
        let z = Seq::new(k, |i: int| '0');
        assert(s =~= t.push(c));
        assert(t == z + decimal(m));
        if m == 0 {
            assert(digits()[0] == digit(0));
            assert(decimal(0) =~= seq!['0']);
            assert(decimal(d) =~= seq![c]);
            assert(s =~= Seq::new(k + 1, |i: int| '0') + decimal(d));
            k + 1
        } else {
            assert((m * 10 + d) / 10 == m);
            assert((m * 10 + d) % 10 == d);
            assert(decimal(m * 10 + d) == decimal(m).push(c));
            assert(s =~= z + decimal(m * 10 + d));
            k
        }
    }
}

/// A text is read as a number where it is that number in decimal, with zeros in front
/// of it or none, and with a plus sign before those or none.
pub proof fn number_is_read_where_it_is_written(s: Seq<char>, n: u64)
    ensures
        parsed_u64(s) == Some(n) <==> exists|plus: bool, zeros: nat|
            s == #[trigger] written_number(n as nat, plus, zeros),
{
    if parsed_u64(s) == Some(n) {
        let d = unsigned(s);
        let k = lemma_zeros_and_decimal(d);
        let plus = s.len() > 0 && s[0] == '+';
        assert(s =~= written_number(n as nat, plus, k));
    }
    if exists|plus: bool, zeros: nat| s == #[trigger] written_number(n as nat, plus, zeros) {
        let (plus, zeros) = choose|plus: bool, zeros: nat|
            s == #[trigger] written_number(n as nat, plus, zeros);
        let z = Seq::new(zeros, |i: int| '0');
        let d = z + decimal(n as nat);
        lemma_decimal_digits(n as nat);
        lemma_leading_zeros(decimal(n as nat), zeros);
        assert(all_digits(d)) by {
            assert forall|i: int| 0 <= i < d.len() implies is_digit(#[trigger] d[i]) by {
                if i >= zeros {
                    assert(is_digit(decimal(n as nat)[i - zeros]));
                }
            }
        }
        assert(is_digit(d[0]));
        if plus {
            assert(s.skip(1) =~= d);
        } else {
            assert(s =~= d);
        }
    }
}

/// A number in decimal after `zeros` zeros, and after a plus sign where `plus` says so.
pub open spec fn written_number(n: nat, plus: bool, zeros: nat) -> Seq<char> {
    if plus {
        seq!['+'] + (Seq::new(zeros, |i: int| '0') + decimal(n))
    } else {
        Seq::new(zeros, |i: int| '0') + decimal(n)
    }
}

/// Padding fills a text up to a width on one side, and changes nothing in it.
pub proof fn padding_fills_one_side(s: Seq<char>, width: nat, fill: char)
    ensures
        ({
            let left = padded_left(s, width, fill);
            let right = padded_right(s, width);
            let n = if s.len() < width {
                width
            } else {
                s.len()
            };
            &&& left.len() == n && right.len() == n
            &&& left.skip(n - s.len()) == s && right.take(s.len() as int) == s
            &&& forall|i: int| 0 <= i < n - s.len() ==> #[trigger] left[i] == fill
            &&& forall|i: int| s.len() <= i < n ==> #[trigger] right[i] == ' '
        }),
{
    let left = padded_left(s, width, fill);
    let right = padded_right(s, width);
    assert(left.skip(left.len() - s.len()) =~= s);
    assert(right.take(s.len() as int) =~= s);
}

} // verus!
