//! Unsigned integers as decimal text: the form in which a message keeps the
//! value of a variable-length integer field.

use vstd::prelude::*;

verus! {

/// The decimal digits of `v` as ASCII bytes, most significant first, with no
/// leading zero but for `0` itself.
pub open spec fn decimal_text(v: nat) -> Seq<u8>
    decreases v,
{
    if v < 10 {
        seq![(0x30 + v) as u8]
    } else {
        decimal_text(v / 10).push((0x30 + v % 10) as u8)
    }
}

/// Whether `b` is one of the ASCII digits `0` to `9`.
pub open spec fn is_digit(b: u8) -> bool {
    0x30 <= b <= 0x39
}

pub open spec fn all_digits(s: Seq<u8>) -> bool {
    forall|i: int| 0 <= i < s.len() ==> is_digit(#[trigger] s[i])
}

/// The number that a run of ASCII digits spells; leading zeros count for
/// nothing.
pub open spec fn digits_value(s: Seq<u8>) -> nat
    decreases s.len(),
{
    if s.len() == 0 {
        0
    } else {
        digits_value(s.drop_last()) * 10 + (s.last() - 0x30) as nat
    }
}

/// The digits of a decimal text: the text without the one `+` that may
/// stand in front of it.
pub open spec fn unsigned_digits(text: Seq<u8>) -> Seq<u8> {
    if text.len() > 0 && text[0] == 0x2b {
        text.skip(1)
    } else {
        text
    }
}

/// The number that `text` spells for an unsigned type whose greatest value
/// is `max`: an optional `+`, then one or more digits and nothing else, and
/// a value of at most `max`. Any other text spells no number.
pub open spec fn decimal_value(text: Seq<u8>, max: nat) -> Option<nat> {
    let digits = unsigned_digits(text);
    if digits.len() > 0 && all_digits(digits) && digits_value(digits) <= max {
        Some(digits_value(digits))
    } else {
        None
    }
}

/// The text of a number is one or more digits and spells that number.
pub proof fn lemma_decimal_text_digits(v: nat)
    ensures
        decimal_text(v).len() >= 1,
        all_digits(decimal_text(v)),
        digits_value(decimal_text(v)) == v,
    decreases v,
{
    if v < 10 {
        let s = decimal_text(v);
        assert(s.drop_last() =~= Seq::<u8>::empty());
        reveal_with_fuel(digits_value, 2);
    } else {
        lemma_decimal_text_digits(v / 10);
        let head = decimal_text(v / 10);
        let s = decimal_text(v);
        assert(s.drop_last() =~= head);
    }
}

/// More digits never spell less.
pub proof fn lemma_digits_value_grows(s: Seq<u8>, n: int)
    requires
        0 <= n <= s.len(),
        all_digits(s),
    ensures
        digits_value(s.take(n)) <= digits_value(s),
    decreases s.len() - n,
{
    if n == s.len() {
        assert(s.take(n) =~= s);
    } else {
        lemma_digits_value_grows(s, n + 1);
        assert(s.take(n + 1).drop_last() =~= s.take(n));
    }
}

/// Parsing what was rendered: the text of `v` spells `v` for every type
/// that can hold `v`.
pub proof fn law_decimal_round_trip(v: nat, max: nat)
    requires
        v <= max,
    ensures
        decimal_value(decimal_text(v), max) == Some(v),
{
    lemma_decimal_text_digits(v);
    assert(is_digit(decimal_text(v)[0]));
}

/// Renders `value` in decimal.
pub fn decimal_digits(value: u64) -> (text: Vec<u8>)
    ensures
        text@ == decimal_text(value as nat),
{
    let mut reversed: Vec<u8> = Vec::new();
    let mut left: u64 = value;
    while left >= 10
        invariant
            decimal_text(value as nat).reverse() == reversed@ + decimal_text(left as nat).reverse(),
        decreases left,
    {
        let digit: u8 = 0x30 + (left % 10) as u8;
        proof {
            let shorter = decimal_text((left / 10) as nat);
            assert(decimal_text(left as nat).reverse() =~= seq![digit] + shorter.reverse());
            assert(reversed@.push(digit) + shorter.reverse() =~= reversed@ + (seq![digit]
                + shorter.reverse()));
        }
        reversed.push(digit);
        left = left / 10;
    }
    let last: u8 = 0x30 + left as u8;
    proof {
        assert(decimal_text(left as nat).reverse() =~= seq![last]);
        assert(reversed@.push(last) =~= reversed@ + seq![last]);
    }
    reversed.push(last);
    let mut text: Vec<u8> = Vec::new();
    let mut count: usize = reversed.len();
    while count > 0
        invariant
            count <= reversed@.len(),
            text@ == reversed@.skip(count as int).reverse(),
        decreases count,
    {
        count -= 1;
        proof {
            let tail = reversed@.skip(count as int);
            assert(tail.reverse() =~= reversed@.skip(count + 1).reverse().push(
                reversed@[count as int],
            ));
        }
        text.push(reversed[count]);
    }
    proof {
        let forward = decimal_text(value as nat);
        assert(reversed@.skip(0) =~= reversed@);
        assert(forward.reverse().reverse() =~= forward);
    }
    text
}

/// Reads `text` as an unsigned decimal number of at most `max`.
pub fn parse_decimal(text: &[u8], max: u64) -> (r: Option<u64>)
    ensures
        match r {
            Some(v) => decimal_value(text@, max as nat) == Some(v as nat),
            None => decimal_value(text@, max as nat) is None,
        },
{
    let start: usize = if text.len() > 0 && text[0] == 0x2b {
        1
    } else {
        0
    };
    let ghost digits = unsigned_digits(text@);
    assert(digits =~= text@.skip(start as int));
    if start == text.len() {
        return None;
    }
    let mut value: u64 = 0;
    let mut index: usize = start;
    while index < text.len()
        invariant
            start <= index <= text@.len(),
            digits == text@.skip(start as int),
            digits == unsigned_digits(text@),
            all_digits(digits.take(index - start)),
            value == digits_value(digits.take(index - start)),
            value <= max,
        decreases text@.len() - index,
    {
        let byte: u8 = text[index];
        let ghost seen = digits.take(index - start);
        let ghost more = digits.take(index - start + 1);
        proof {
            assert(more.drop_last() =~= seen);
            assert(more.last() == byte);
            assert(digits[index - start] == byte);
        }
        if byte < 0x30 || byte > 0x39 {
            assert(!is_digit(digits[index - start]));
            return None;
        }
        let digit: u64 = (byte - 0x30) as u64;
        if digit > max || value > (max - digit) / 10 {
            proof {
                assert(digits_value(more) == value * 10 + digit);
                assert(value * 10 + digit > max);
                if all_digits(digits) {
                    lemma_digits_value_grows(digits, index - start + 1);
                }
            }
            return None;
        }
        value = value * 10 + digit;
        index += 1;
        assert(all_digits(more));
    }
    proof {
        assert(digits.take(index - start) =~= digits);
    }
    Some(value)
}

} // verus!
