//! Character sequences: their dictionary order and a few scans over them.

use vstd::prelude::*;
use vstd::std_specs::iter::IteratorSpec;

verus! {

/// Dictionary order on character sequences: the first differing character
/// decides, and a sequence comes before each of its extensions.
pub open spec fn precedes(a: Seq<char>, b: Seq<char>) -> bool
    decreases a.len(),
{
    if a.len() == 0 {
        true
    } else if b.len() == 0 {
        false
    } else if a[0] == b[0] {
        precedes(a.drop_first(), b.drop_first())
    } else {
        a[0] < b[0]
    }
}

/// A sequence comes before each sequence that begins with it.
pub proof fn lemma_prefix_precedes(a: Seq<char>, b: Seq<char>)
    requires
        a.is_prefix_of(b),
    ensures
        precedes(a, b),
    decreases a.len(),
{
    if a.len() > 0 {
        lemma_prefix_precedes(a.drop_first(), b.drop_first());
    }
}

/// Where two sequences agree up to a place and differ there, the characters
/// at that place decide which comes first.
pub proof fn lemma_first_difference_decides(a: Seq<char>, b: Seq<char>, at: int)
    requires
        0 <= at < a.len(),
        at < b.len(),
        a.take(at) == b.take(at),
        a[at] != b[at],
    ensures
        precedes(a, b) == (a[at] < b[at]),
    decreases at,
{
    if at > 0 {
        assert(a[0] == a.take(at)[0] && b[0] == b.take(at)[0]);
        assert(a.drop_first().take(at - 1) =~= a.take(at).drop_first());
        assert(b.drop_first().take(at - 1) =~= b.take(at).drop_first());
        lemma_first_difference_decides(a.drop_first(), b.drop_first(), at - 1);
    }
}

/// Every sequence precedes itself.
pub proof fn lemma_precedes_reflexive(a: Seq<char>)
    ensures
        precedes(a, a),
    decreases a.len(),
{
    if a.len() > 0 {
        lemma_precedes_reflexive(a.drop_first());
    }
}

/// Two sequences that precede each other are the same sequence.
pub proof fn lemma_precedes_antisymmetric(a: Seq<char>, b: Seq<char>)
    requires
        precedes(a, b),
        precedes(b, a),
    ensures
        a == b,
    decreases a.len(),
{
    if a.len() > 0 && b.len() > 0 {
        lemma_precedes_antisymmetric(a.drop_first(), b.drop_first());
        assert(a =~= seq![a[0]] + a.drop_first());
        assert(b =~= seq![b[0]] + b.drop_first());
    }
}

/// The order is transitive.
pub proof fn lemma_precedes_transitive(a: Seq<char>, b: Seq<char>, c: Seq<char>)
    requires
        precedes(a, b),
        precedes(b, c),
    ensures
        precedes(a, c),
    decreases a.len(),
{
    if a.len() > 0 && a[0] == b[0] && b[0] == c[0] {
        lemma_precedes_transitive(a.drop_first(), b.drop_first(), c.drop_first());
    }
}

/// Any two sequences are comparable.
pub proof fn lemma_precedes_total(a: Seq<char>, b: Seq<char>)
    ensures
        precedes(a, b) || precedes(b, a),
    decreases a.len(),
{
    if a.len() > 0 && b.len() > 0 && a[0] == b[0] {
        lemma_precedes_total(a.drop_first(), b.drop_first());
    }
}

/// Tells whether `a` comes before `b` in dictionary order, or equals it.
pub fn le(a: &str, b: &str) -> (r: bool)
    ensures
        r == precedes(a@, b@),
{
    let mut left = a.chars();
    let mut right = b.chars();
    loop
        invariant
            precedes(a@, b@) == precedes(left.remaining(), right.remaining()),
            left.decrease() is Some,
        decreases left.decrease()->0,
    {
        match left.next() {
            None => {
                return true;
            },
            Some(x) => match right.next() {
                None => {
                    return false;
                },
                Some(y) => {
                    if x != y {
                        return x < y;
                    }
                },
            },
        }
    }
}

/// Tells whether `text` begins with `prefix`.
pub fn begins_with(text: &str, prefix: &str) -> (r: bool)
    ensures
        r == prefix@.is_prefix_of(text@),
{
    let mut rest = text.chars();
    let mut wanted = prefix.chars();
    loop
        invariant
            prefix@.is_prefix_of(text@) == wanted.remaining().is_prefix_of(rest.remaining()),
            wanted.decrease() is Some,
        decreases wanted.decrease()->0,
    {
        let ghost w = wanted.remaining();
        let ghost t = rest.remaining();
        match wanted.next() {
            None => {
                return true;
            },
            Some(x) => match rest.next() {
                None => {
                    return false;
                },
                Some(y) => {
                    if x != y {
                        return false;
                    }
                    assert(w =~= seq![w[0]] + w.drop_first());
                    assert(t =~= seq![t[0]] + t.drop_first());
                },
            },
        }
    }
}

/// Tells whether `wanted` occurs in `text`.
pub fn has_char(text: &str, wanted: char) -> (r: bool)
    ensures
        r == text@.contains(wanted),
{
    let mut rest = text.chars();
    let ghost mut seen: int = 0;
    loop
        invariant
            0 <= seen <= text@.len(),
            rest.remaining() == text@.skip(seen),
            forall|i: int| 0 <= i < seen ==> text@[i] != wanted,
            rest.decrease() is Some,
        decreases rest.decrease()->0,
    {
        match rest.next() {
            None => {
                return false;
            },
            Some(c) => {
                if c == wanted {
                    return true;
                }
                proof {
                    seen = seen + 1;
                }
            },
        }
    }
}

/// The character that writes the digit `d`.
pub open spec fn digit(d: nat) -> char
    recommends
        d < 10,
{
    if d == 0 {
        '0'
    } else if d == 1 {
        '1'
    } else if d == 2 {
        '2'
    } else if d == 3 {
        '3'
    } else if d == 4 {
        '4'
    } else if d == 5 {
        '5'
    } else if d == 6 {
        '6'
    } else if d == 7 {
        '7'
    } else if d == 8 {
        '8'
    } else {
        '9'
    }
}

/// The digit that `c` writes, if it is one of `0` to `9`.
pub open spec fn digit_value(c: char) -> Option<nat> {
    if '0' <= c <= '9' {
        Some((c as nat - '0' as nat) as nat)
    } else {
        None
    }
}

/// `n` in decimal notation, without leading zeros.
pub open spec fn decimal(n: nat) -> Seq<char>
    decreases n,
{
    if n < 10 {
        seq![digit(n)]
    } else {
        decimal(n / 10).push(digit(n % 10))
    }
}

/// `n` in decimal notation, with a leading zero where it has one digit only.
pub open spec fn two_digits(n: nat) -> Seq<char> {
    if n < 10 {
        seq!['0', digit(n)]
    } else {
        decimal(n)
    }
}

/// The number that `s` writes, if `s` is made of exactly two digits.
pub open spec fn two_digit_value(s: Seq<char>) -> Option<nat> {
    if s.len() == 2 && digit_value(s[0]) is Some && digit_value(s[1]) is Some {
        Some(10 * digit_value(s[0])->0 + digit_value(s[1])->0)
    } else {
        None
    }
}

/// Reading a digit back gives the number that was written.
pub proof fn lemma_digit_round_trip(d: nat)
    requires
        d < 10,
    ensures
        digit_value(digit(d)) == Some(d),
{
}

/// Writing down the value of a digit gives that digit.
pub proof fn lemma_digit_value_round_trip(c: char)
    requires
        digit_value(c) is Some,
    ensures
        digit_value(c)->0 < 10,
        digit(digit_value(c)->0) == c,
{
}

/// A number below one hundred is written with two digits, and reading
/// them gives the number back.
pub proof fn lemma_two_digits_round_trip(n: nat)
    requires
        n < 100,
    ensures
        two_digits(n).len() == 2,
        two_digit_value(two_digits(n)) == Some(n),
{
    reveal_with_fuel(decimal, 2);
    lemma_digit_round_trip(n % 10);
    lemma_digit_round_trip(n / 10);
}

/// Two digits that are read and written again come out unchanged.
pub proof fn lemma_two_digit_value_round_trip(s: Seq<char>)
    requires
        two_digit_value(s) is Some,
    ensures
        two_digit_value(s)->0 < 100,
        two_digits(two_digit_value(s)->0) == s,
{
    reveal_with_fuel(decimal, 2);
    lemma_digit_value_round_trip(s[0]);
    lemma_digit_value_round_trip(s[1]);
}

/// Among texts that begin with a number in two digits, the order of the
/// texts follows the order of the numbers.
pub proof fn lemma_precedes_orders_numbers(a: Seq<char>, b: Seq<char>, x: nat, y: nat)
    requires
        x < 100,
        y < 100,
        two_digits(x).is_prefix_of(a),
        two_digits(y).is_prefix_of(b),
        precedes(a, b),
    ensures
        x <= y,
{
    reveal_with_fuel(decimal, 2);
    reveal_with_fuel(precedes, 3);
    assert(a[0] == two_digits(x)[0] && a[1] == two_digits(x)[1]);
    assert(b[0] == two_digits(y)[0] && b[1] == two_digits(y)[1]);
    lemma_digit_round_trip(x / 10);
    lemma_digit_round_trip(x % 10);
    lemma_digit_round_trip(y / 10);
    lemma_digit_round_trip(y % 10);
}

/// A digit is no line break.
pub proof fn lemma_digit_is_no_line_break(d: nat)
    ensures
        digit(d) != '\n',
{
}

/// A number in decimal notation holds no line break.
pub proof fn lemma_decimal_has_no_line_break(n: nat)
    ensures
        !decimal(n).contains('\n'),
        !two_digits(n).contains('\n'),
    decreases n,
{
    lemma_digit_is_no_line_break(n % 10);
    if n >= 10 {
        lemma_decimal_has_no_line_break(n / 10);
    }
}

/// The text of one digit.
fn digit_text(d: usize) -> (r: &'static str)
    requires
        d < 10,
    ensures
        r@ == seq![digit(d as nat)],
{
    proof {
        reveal_strlit("0");
        reveal_strlit("1");
        reveal_strlit("2");
        reveal_strlit("3");
        reveal_strlit("4");
        reveal_strlit("5");
        reveal_strlit("6");
        reveal_strlit("7");
        reveal_strlit("8");
        reveal_strlit("9");
    }
    let r = if d == 0 {
        "0"
    } else if d == 1 {
        "1"
    } else if d == 2 {
        "2"
    } else if d == 3 {
        "3"
    } else if d == 4 {
        "4"
    } else if d == 5 {
        "5"
    } else if d == 6 {
        "6"
    } else if d == 7 {
        "7"
    } else if d == 8 {
        "8"
    } else {
        "9"
    };
    r
}

/// Appends `n` in decimal notation to `out`.
pub fn push_decimal(out: &mut String, n: usize)
    ensures
        final(out)@ == old(out)@ + decimal(n as nat),
    decreases n,
{
    if n >= 10 {
        push_decimal(out, n / 10);
    }
    out.append(digit_text(n % 10));
}

/// Appends `n` to `out` in at least two digits.
pub fn push_two_digits(out: &mut String, n: usize)
    ensures
        final(out)@ == old(out)@ + two_digits(n as nat),
{
    if n < 10 {
        out.append("0");
        proof {
            reveal_strlit("0");
        }
    }
    push_decimal(out, n);
}

/// Reads a number written as exactly two digits.
pub fn read_two_digits(text: &str) -> (r: Option<usize>)
    ensures
        r matches Some(n) ==> two_digit_value(text@) == Some(n as nat),
        r is None ==> two_digit_value(text@) is None,
{
    if text.unicode_len() != 2 {
        return None;
    }
    let tens = text.get_char(0);
    let units = text.get_char(1);
    if '0' <= tens && tens <= '9' && '0' <= units && units <= '9' {
        let high: usize = (tens as u32 - '0' as u32) as usize;
        let low: usize = (units as u32 - '0' as u32) as usize;
        Some(10 * high + low)
    } else {
        None
    }
}

} // verus!
