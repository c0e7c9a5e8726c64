//! Natural numbers of any size, written as digits: decimal numerals as they
//! stand in a text, and digit vectors that start with the least significant
//! digit.

use crate::order::{int_order, Order};
use vstd::prelude::*;

verus! {

/// The number that the digits stand for in the given base; the first digit
/// counts least.
pub open spec fn weigh(digits: Seq<u8>, base: int) -> int
    decreases digits.len(),
{
    if digits.len() == 0 {
        0
    } else {
        digits[0] + base * weigh(digits.drop_first(), base)
    }
}

/// Whether every digit is below the base.
pub open spec fn digits_below(digits: Seq<u8>, base: int) -> bool {
    forall|i: int| 0 <= i < digits.len() ==> digits[i] < base
}

/// The digit at a position, zero beyond the end.
pub open spec fn digit_at(digits: Seq<u8>, i: int) -> int {
    if 0 <= i < digits.len() {
        digits[i] as int
    } else {
        0
    }
}

/// The number that the digits from position `i` on stand for.
pub open spec fn weigh_from(digits: Seq<u8>, base: int, i: int) -> int {
    if 0 <= i < digits.len() {
        weigh(digits.skip(i), base)
    } else {
        0
    }
}

/// Whether a character is one of the ten decimal digits.
pub open spec fn is_digit(c: char) -> bool {
    '0' <= c <= '9'
}

/// The number that a decimal digit stands for.
pub open spec fn digit_of(c: char) -> int {
    (c as u32) - ('0' as u32)
}

/// The character of a number below ten.
pub open spec fn digit_char(d: int) -> char {
    if d == 0 {
        '0'
    } else if d == 1 {
        '1'
    } else if d == 2 {
        '2'
    } else if d == 3 {
        '3'
    } else if d == 4 {
        '4'
    } else if d == 5 {
        '5'
    } else if d == 6 {
        '6'
    } else if d == 7 {
        '7'
    } else if d == 8 {
        '8'
    } else {
        '9'
    }
}

/// Whether a text is a decimal numeral: not empty, decimal digits only.
pub open spec fn is_numeral(text: Seq<char>) -> bool {
    &&& text.len() > 0
    &&& forall|i: int| 0 <= i < text.len() ==> is_digit(#[trigger] text[i])
}

/// The number that a decimal numeral stands for.
pub open spec fn decimal_value(text: Seq<char>) -> nat
    decreases text.len(),
{
    if text.len() == 0 {
        0
    } else {
        (10 * decimal_value(text.drop_last()) + digit_of(text.last())) as nat
    }
}

/// The digits of a decimal numeral, the last one first.
pub open spec fn numeral_digits(text: Seq<char>) -> Seq<u8> {
    Seq::new(text.len(), |i: int| digit_of(text[text.len() - 1 - i]) as u8)
}

/// The decimal numeral of a number, without leading zeros.
pub open spec fn decimal_text(n: nat) -> Seq<char>
    decreases n,
{
    if n < 10 {
        seq![digit_char(n as int)]
    } else {
        decimal_text(n / 10).push(digit_char((n % 10) as int))
    }
}

/// Whether a numeral is written without needless leading zeros.
pub open spec fn is_canonical_numeral(text: Seq<char>) -> bool {
    is_numeral(text) && (text.len() == 1 || text[0] != '0')
}

/// The number that a text stands for when each character counts with its
/// code, the first character once, the next one eight times, the one after
/// that sixty-four times, and so on.
pub open spec fn code_value(text: Seq<char>) -> nat
    decreases text.len(),
{
    if text.len() == 0 {
        0
    } else {
        (text[0] as u32) as nat + 8 * code_value(text.drop_first())
    }
}

/// The octal digits of a number, least significant first, none for zero.
pub open spec fn octal_digits(n: nat) -> Seq<u8>
    decreases n,
{
    if n == 0 {
        Seq::empty()
    } else {
        seq![(n % 8) as u8] + octal_digits(n / 8)
    }
}

/// The octal digits of `carry + code_value(text)`, least significant first.
pub open spec fn code_digits(text: Seq<char>, carry: nat) -> Seq<u8>
    decreases text.len(),
{
    if text.len() == 0 {
        octal_digits(carry)
    } else {
        let t = carry + (text[0] as u32) as nat;
        seq![(t % 8) as u8] + code_digits(text.drop_first(), t / 8)
    }
}

/// One more digit below the base at the low end decides only where the
/// higher digits agree.
pub proof fn lemma_low_digit(x: int, high_a: int, y: int, high_b: int, base: int)
    requires
        0 <= x < base,
        0 <= y < base,
    ensures
        int_order(x + base * high_a, y + base * high_b) == int_order(high_a, high_b).then_with(
            int_order(x, y),
        ),
{
    if high_a < high_b {
        assert(base * (high_a + 1) <= base * high_b) by (nonlinear_arith)
            requires
                high_a + 1 <= high_b,
                base > 0,
        ;
        assert(base * (high_a + 1) == base * high_a + base) by (nonlinear_arith);
    } else if high_b < high_a {
        assert(base * (high_b + 1) <= base * high_a) by (nonlinear_arith)
            requires
                high_b + 1 <= high_a,
                base > 0,
        ;
        assert(base * (high_b + 1) == base * high_b + base) by (nonlinear_arith);
    }
}

/// The digits from a position on: that digit, and the rest one place higher.
pub proof fn lemma_weigh_from(digits: Seq<u8>, base: int, i: int)
    requires
        0 <= i,
    ensures
        weigh_from(digits, base, i) == digit_at(digits, i) + base * weigh_from(
            digits,
            base,
            i + 1,
        ),
{
    if i < digits.len() {
        assert(digits.skip(i).drop_first() =~= digits.skip(i + 1));
        if i + 1 == digits.len() {
            assert(weigh(digits.skip(i + 1), base) == 0);
        }
    }
    assert(base * 0 == 0);
}

/// The octal digits of a number stand for it.
pub proof fn lemma_octal_digits(n: nat)
    ensures
        weigh(octal_digits(n), 8) == n,
        digits_below(octal_digits(n), 8),
    decreases n,
{
    if n > 0 {
        lemma_octal_digits(n / 8);
        let d = octal_digits(n);
        assert(d.drop_first() =~= octal_digits(n / 8));
        assert forall|i: int| 0 <= i < d.len() implies d[i] < 8 by {
            if i > 0 {
                assert(d[i] == octal_digits(n / 8)[i - 1]);
            }
        }
    }
}

/// The digits that `code_digits` gives stand for the carry and the text's value.
pub proof fn lemma_code_digits(text: Seq<char>, carry: nat)
    ensures
        weigh(code_digits(text, carry), 8) == carry + code_value(text),
        digits_below(code_digits(text, carry), 8),
    decreases text.len(),
{
    if text.len() == 0 {
        lemma_octal_digits(carry);
    } else {
        let t = carry + (text[0] as u32) as nat;
        lemma_code_digits(text.drop_first(), t / 8);
        let d = code_digits(text, carry);
        let rest = code_digits(text.drop_first(), t / 8);
        assert(d.drop_first() =~= rest);
        assert forall|i: int| 0 <= i < d.len() implies d[i] < 8 by {
            if i > 0 {
                assert(d[i] == rest[i - 1]);
            }
        }
    }
}

/// The digits of a numeral, last one first, stand for its value.
pub proof fn lemma_numeral_digits(text: Seq<char>)
    requires
        text.len() == 0 || is_numeral(text),
    ensures
        weigh(numeral_digits(text), 10) == decimal_value(text),
        digits_below(numeral_digits(text), 10),
    decreases text.len(),
{
    if text.len() > 0 {
        let front = text.drop_last();
        lemma_numeral_digits(front);
        assert(numeral_digits(text).drop_first() =~= numeral_digits(front));
        assert(is_digit(text[text.len() - 1]));
        assert forall|i: int| 0 <= i < text.len() implies numeral_digits(text)[i] < 10 by {
            assert(is_digit(text[text.len() - 1 - i]));
        }
    }
}

/// The value of a numeral with one more digit at its end.
pub proof fn lemma_decimal_value_push(text: Seq<char>, c: char)
    ensures
        decimal_value(text.push(c)) == (10 * decimal_value(text) + digit_of(c)) as nat,
{
    assert(text.push(c).drop_last() =~= text);
}

/// A numeral's value does not shrink when digits are added at its end.
pub proof fn lemma_decimal_value_grows(text: Seq<char>, n: int)
    requires
        is_numeral(text),
        0 <= n <= text.len(),
    ensures
        decimal_value(text.take(n)) <= decimal_value(text),
    decreases text.len() - n,
{
    if n < text.len() {
        lemma_decimal_value_grows(text, n + 1);
        assert(text.take(n + 1).drop_last() =~= text.take(n));
        assert(is_digit(text[n]));
    } else {
        assert(text.take(n) =~= text);
    }
}

/// The decimal text of a number is a canonical numeral that stands for it.
pub proof fn lemma_decimal_text(n: nat)
    ensures
        is_canonical_numeral(decimal_text(n)),
        decimal_value(decimal_text(n)) == n,
    decreases n,
{
    if n < 10 {
        let t = decimal_text(n);
        assert(t.drop_last() =~= Seq::<char>::empty());
        assert(decimal_value(t.drop_last()) == 0);
    } else {
        lemma_decimal_text(n / 10);
        let front = decimal_text(n / 10);
        let c = digit_char((n % 10) as int);
        lemma_decimal_value_push(front, c);
        let t = front.push(c);
        assert forall|i: int| 0 <= i < t.len() implies is_digit(#[trigger] t[i]) by {
            if i < front.len() {
                assert(is_digit(front[i]));
            }
        }
        assert(t[0] == front[0]);
        if front.len() == 1 {
            assert(front.drop_last() =~= Seq::<char>::empty());
            assert(decimal_value(front.drop_last()) == 0);
        }
    }
}

/// A canonical numeral is the decimal text of its value.
pub proof fn lemma_canonical_numeral(text: Seq<char>)
    requires
        is_canonical_numeral(text),
    ensures
        decimal_text(decimal_value(text)) == text,
    decreases text.len(),
{
    let front = text.drop_last();
    let c = text.last();
    assert(is_digit(text[text.len() - 1]));
    assert(digit_char(digit_of(c)) == c);
    if text.len() == 1 {
        assert(decimal_value(front) == 0);
        assert(decimal_text(decimal_value(text)) =~= text);
    } else {
        assert forall|i: int| 0 <= i < front.len() implies is_digit(#[trigger] front[i]) by {
            assert(is_digit(text[i]));
        }
        assert(front[0] == text[0]);
        lemma_canonical_numeral(front);
        lemma_canonical_positive(front);
        let v = decimal_value(text);
        assert(v / 10 == decimal_value(front));
        assert(v % 10 == digit_of(c));
        assert(decimal_text(v) =~= text);
    }
}

/// A canonical numeral of more than one digit, or one that does not start with
/// a zero, stands for a positive number.
pub proof fn lemma_canonical_positive(text: Seq<char>)
    requires
        is_numeral(text),
        text[0] != '0',
    ensures
        decimal_value(text) >= 1,
    decreases text.len(),
{
    assert(is_digit(text[0]));
    assert(is_digit(text[text.len() - 1]));
    if text.len() == 1 {
        assert(decimal_value(text.drop_last()) == 0);
    } else {
        let front = text.drop_last();
        assert forall|i: int| 0 <= i < front.len() implies is_digit(#[trigger] front[i]) by {
            assert(is_digit(text[i]));
        }
        assert(front[0] == text[0]);
        lemma_canonical_positive(front);
    }
}

/// How the numbers of two digit vectors compare.
pub fn compare_digits(a: &Vec<u8>, b: &Vec<u8>, base: u8) -> (r: Order)
    requires
        base >= 1,
        digits_below(a@, base as int),
        digits_below(b@, base as int),
    ensures
        r == int_order(weigh(a@, base as int), weigh(b@, base as int)),
{
    let n: usize = if a.len() > b.len() {
        a.len()
    } else {
        b.len()
    };
    let mut i: usize = n;
    let mut r = Order::Equal;
    while i > 0
        invariant
            i <= n,
            base >= 1,
            digits_below(a@, base as int),
            digits_below(b@, base as int),
            r == int_order(weigh_from(a@, base as int, i as int), weigh_from(b@, base as int, i as int)),
        decreases i,
    {
        i -= 1;
        let x: u8 = if i < a.len() {
            a[i]
        } else {
            0
        };
        let y: u8 = if i < b.len() {
            b[i]
        } else {
            0
        };
        proof {
            lemma_weigh_from(a@, base as int, i as int);
            lemma_weigh_from(b@, base as int, i as int);
            lemma_low_digit(
                x as int,
                weigh_from(a@, base as int, i + 1),
                y as int,
                weigh_from(b@, base as int, i + 1),
                base as int,
            );
        }
        if r == Order::Equal {
            if x < y {
                r = Order::Less;
            } else if x > y {
                r = Order::Greater;
            }
        }
    }
    proof {
        assert(a@.skip(0) =~= a@);
        assert(b@.skip(0) =~= b@);
    }
    r
}

/// Whether a text is a decimal numeral.
pub fn check_numeral(text: &Vec<char>) -> (r: bool)
    ensures
        r == is_numeral(text@),
{
    if text.len() == 0 {
        return false;
    }
    let mut i: usize = 0;
    while i < text.len()
        invariant
            i <= text.len(),
            forall|j: int| 0 <= j < i ==> is_digit(#[trigger] text@[j]),
        decreases text.len() - i,
    {
        let c = text[i];
        if !('0' <= c && c <= '9') {
            assert(!is_digit(text@[i as int]));
            return false;
        }
        i += 1;
    }
    true
}

/// The digits of a decimal numeral, the last one first.
pub fn digits_of_numeral(text: &Vec<char>) -> (r: Vec<u8>)
    requires
        is_numeral(text@),
    ensures
        r@ == numeral_digits(text@),
{
    let mut out: Vec<u8> = Vec::new();
    let mut i: usize = text.len();
    while i > 0
        invariant
            i <= text.len(),
            is_numeral(text@),
            out.len() == text.len() - i,
            forall|j: int| 0 <= j < out.len() ==> out@[j] == numeral_digits(text@)[j],
        decreases i,
    {
        i -= 1;
        let c = text[i];
        assert(is_digit(text@[i as int]));
        let d: u8 = ((c as u32) - ('0' as u32)) as u8;
        out.push(d);
    }
    assert(out@ =~= numeral_digits(text@));
    out
}

/// The octal digits of a text's code value, least significant first.
pub fn digits_of_codes(text: &Vec<char>) -> (r: Vec<u8>)
    ensures
        r@ == code_digits(text@, 0),
{
    let mut out: Vec<u8> = Vec::new();
    let mut carry: u64 = 0;
    let mut i: usize = 0;
    assert(text@.skip(0) =~= text@);
    while i < text.len()
        invariant
            i <= text.len(),
            carry <= u32::MAX,
            code_digits(text@, 0) == out@ + code_digits(text@.skip(i as int), carry as nat),
        decreases text.len() - i,
    {
        let t: u64 = carry + (text[i] as u32) as u64;
        proof {
            let rest = text@.skip(i as int);
            assert(rest[0] == text@[i as int]);
            assert(rest.drop_first() =~= text@.skip(i + 1));
            assert(out@.push((t % 8) as u8) + code_digits(text@.skip(i + 1), (t / 8) as nat)
                =~= out@ + code_digits(rest, carry as nat));
        }
        out.push((t % 8) as u8);
        carry = t / 8;
        i += 1;
    }
    while carry > 0
        invariant
            code_digits(text@, 0) == out@ + octal_digits(carry as nat),
        decreases carry,
    {
        proof {
            assert(out@.push((carry % 8) as u8) + octal_digits((carry / 8) as nat) =~= out@
                + octal_digits(carry as nat));
        }
        out.push((carry % 8) as u8);
        carry = carry / 8;
    }
    assert(out@ + octal_digits(0) =~= out@);
    out
}

/// The number of a decimal numeral, where it is one and the number fits.
pub fn parse_decimal(text: &Vec<char>) -> (r: Option<usize>)
    ensures
        r is Some <==> is_numeral(text@) && decimal_value(text@) <= usize::MAX,
        r matches Some(n) ==> n == decimal_value(text@),
{
    if !check_numeral(text) {
        return None;
    }
    let mut n: usize = 0;
    let mut i: usize = 0;
    assert(text@.take(0) =~= Seq::<char>::empty());
    while i < text.len()
        invariant
            i <= text.len(),
            is_numeral(text@),
            n == decimal_value(text@.take(i as int)),
        decreases text.len() - i,
    {
        let c = text[i];
        assert(is_digit(text@[i as int]));
        let d: usize = ((c as u32) - ('0' as u32)) as usize;
        proof {
            assert(text@.take(i + 1) =~= text@.take(i as int).push(c));
            lemma_decimal_value_push(text@.take(i as int), c);
            lemma_decimal_value_grows(text@, i + 1);
        }
        if n > (usize::MAX - d) / 10 {
            return None;
        }
        n = n * 10 + d;
        i += 1;
    }
    assert(text@.take(text.len() as int) =~= text@);
    Some(n)
}

/// The decimal numeral of a number.
pub fn decimal_chars(n: usize) -> (r: Vec<char>)
    ensures
        r@ == decimal_text(n as nat),
    decreases n,
{
    let d: u8 = (n % 10) as u8;
    let c: char = if d == 0 {
        '0'
    } else if d == 1 {
        '1'
    } else if d == 2 {
        '2'
    } else if d == 3 {
        '3'
    } else if d == 4 {
        '4'
    } else if d == 5 {
        '5'
    } else if d == 6 {
        '6'
    } else if d == 7 {
        '7'
    } else if d == 8 {
        '8'
    } else {
        '9'
    };
    if n < 10 {
        let mut out: Vec<char> = Vec::new();
        out.push(c);
        assert(out@ =~= decimal_text(n as nat));
        out
    } else {
        let mut out = decimal_chars(n / 10);
        out.push(c);
        out
    }
}

} // verus!
