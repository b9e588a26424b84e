//! What holds between the written form of a key and its reading: a key that
//! is written and read again is the same key.

use crate::coordinate::{
    all_digits, digit_char, digit_value, digits_number, int_text, is_only_comma, key_text, nat_text, part_int,
    text_int, text_key, trimmed_end, trimmed_start, Coordinate,
};
use crate::regex_parsing::is_whitespace;
use vstd::prelude::*;

verus! {

/// Whether a character is a decimal digit or a minus sign.
pub open spec fn is_number_char(c: char) -> bool {
    digit_value(c) is Some || c == '-'
}

/// A digit's character stands for the digit.
proof fn lemma_digit_char(d: int)
    requires
        0 <= d < 10,
    ensures
        digit_value(digit_char(d)) == Some(d),
        !is_whitespace(digit_char(d)),
        digit_char(d) != ',',
        digit_char(d) != '-',
        digit_char(d) != '+',
{
}

/// The digits of a natural number are digits, at least one, and stand for
/// the number.
proof fn lemma_nat_text(n: nat)
    ensures
        nat_text(n).len() >= 1,
        all_digits(nat_text(n)),
        digits_number(nat_text(n)) == n,
    decreases n,
{
    let s = nat_text(n);
    if n < 10 {
        lemma_digit_char(n as int);
        assert(s.drop_last() =~= Seq::<char>::empty());
        assert(s.last() == digit_char(n as int));
        assert(digits_number(s.drop_last()) == 0);
    } else {
        lemma_nat_text(n / 10);
        lemma_digit_char((n % 10) as int);
        assert(s.drop_last() =~= nat_text(n / 10));
        assert(s.last() == digit_char((n % 10) as int));
        assert forall|i: int| 0 <= i < s.len() implies digit_value(#[trigger] s[i]) is Some by {
            if i < s.len() - 1 {
                assert(s[i] == nat_text(n / 10)[i]);
            }
        }
    }
}

/// The written form of an integer is not empty, holds digits and at most a
/// minus sign, and stands for the integer.
proof fn lemma_int_text(v: int)
    ensures
        int_text(v).len() >= 1,
        forall|i: int| 0 <= i < int_text(v).len() ==> is_number_char(#[trigger] int_text(v)[i]),
        text_int(int_text(v)) == Some(v),
{
    let s = int_text(v);
    if v < 0 {
        let digits = nat_text((-v) as nat);
        lemma_nat_text((-v) as nat);
        assert(s.subrange(1, s.len() as int) =~= digits);
        assert forall|i: int| 0 <= i < s.len() implies is_number_char(#[trigger] s[i]) by {
            if i > 0 {
                assert(s[i] == digits[i - 1]);
            }
        }
    } else {
        lemma_nat_text(v as nat);
        assert(digit_value(s[0]) is Some);
    }
}

/// Neither a digit nor a minus sign is white space or a comma.
proof fn lemma_number_char(c: char)
    requires
        is_number_char(c),
    ensures
        !is_whitespace(c),
        c != ',',
{
}

/// A key that is written and read again is the same key.
pub proof fn law_key_round_trip(c: Coordinate)
    ensures
        text_key(key_text(c)) == Some(c),
{
    let left = int_text(c.x as int);
    let right = int_text(c.y as int);
    let s = key_text(c);
    let comma = left.len() as int;
    lemma_int_text(c.x as int);
    lemma_int_text(c.y as int);
    assert(s.len() == left.len() + 1 + right.len());
    assert(s[comma] == ',');
    assert forall|j: int| 0 <= j < s.len() && j != comma implies s[j] != ',' by {
        if j < comma {
            assert(s[j] == left[j]);
            lemma_number_char(left[j]);
        } else {
            assert(s[j] == right[j - comma - 1]);
            lemma_number_char(right[j - comma - 1]);
        }
    }
    assert(is_only_comma(s, comma));
    let i = choose|i: int| is_only_comma(s, i);
    assert(i == comma);
    let end = s.len() as int;
    assert(s[0] == left[0]);
    lemma_number_char(left[0]);
    assert(s[comma - 1] == left[comma - 1]);
    lemma_number_char(left[comma - 1]);
    assert(trimmed_start(s, 0, comma) == 0);
    assert(trimmed_end(s, 0, comma) == comma);
    assert(s.subrange(0, comma) =~= left);
    assert(s[comma + 1] == right[0]);
    lemma_number_char(right[0]);
    assert(s[end - 1] == right[right.len() - 1]);
    lemma_number_char(right[right.len() - 1]);
    assert(trimmed_start(s, comma + 1, end) == comma + 1);
    assert(trimmed_end(s, comma + 1, end) == end);
    assert(s.subrange(comma + 1, end) =~= right);
    assert(part_int(s, 0, comma) == Some(c.x as int));
    assert(part_int(s, comma + 1, end) == Some(c.y as int));
}

} // verus!
