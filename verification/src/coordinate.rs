//! State keys: integer coordinates that identify a state within an
//! automaton, and their written form `x,y`.

use crate::regex_parsing::{is_whitespace, is_whitespace_char};
use crate::text::{char_at, chars_of, string_of};
use vstd::prelude::*;

verus! {

/// The key of a state. Two states of one automaton never share a key.
#[derive(Clone, Copy, Debug, PartialEq, Eq, Hash, Structural)]
pub struct Coordinate {
    pub x: i32,
    pub y: i32,
}

/// The character of a decimal digit.
pub open spec fn digit_char(d: int) -> char {
    if d == 0 {
        '0'
    } else if d == 1 {
        '1'
    } else if d == 2 {
        '2'
    } else if d == 3 {
        '3'
    } else if d == 4 {
        '4'
    } else if d == 5 {
        '5'
    } else if d == 6 {
        '6'
    } else if d == 7 {
        '7'
    } else if d == 8 {
        '8'
    } else {
        '9'
    }
}

/// The value of the character of a decimal digit; none for another
/// character.
pub open spec fn digit_value(c: char) -> Option<int> {
    if c == '0' {
        Some(0)
    } else if c == '1' {
        Some(1)
    } else if c == '2' {
        Some(2)
    } else if c == '3' {
        Some(3)
    } else if c == '4' {
        Some(4)
    } else if c == '5' {
        Some(5)
    } else if c == '6' {
        Some(6)
    } else if c == '7' {
        Some(7)
    } else if c == '8' {
        Some(8)
    } else if c == '9' {
        Some(9)
    } else {
        None
    }
}

/// The decimal digits of a natural number, without leading zeros.
pub open spec fn nat_text(n: nat) -> Seq<char>
    decreases n,
{
    if n < 10 {
        seq![digit_char(n as int)]
    } else {
        nat_text(n / 10).push(digit_char((n % 10) as int))
    }
}

/// The written form of an integer: its decimal digits, behind a minus sign
/// if it is negative.
pub open spec fn int_text(v: int) -> Seq<char> {
    if v < 0 {
        seq!['-'] + nat_text((-v) as nat)
    } else {
        nat_text(v as nat)
    }
}

/// The written form of a key: its two components with a comma between
/// them.
pub open spec fn key_text(c: Coordinate) -> Seq<char> {
    int_text(c.x as int) + seq![','] + int_text(c.y as int)
}

/// Whether all characters are decimal digits.
pub open spec fn all_digits(s: Seq<char>) -> bool {
    forall|i: int| 0 <= i < s.len() ==> digit_value(#[trigger] s[i]) is Some
}

/// The number that decimal digits stand for.
pub open spec fn digits_number(s: Seq<char>) -> int
    decreases s.len(),
{
    if s.len() == 0 {
        0
    } else {
        match digit_value(s.last()) {
            Some(d) => digits_number(s.drop_last()) * 10 + d,
            None => digits_number(s.drop_last()) * 10,
        }
    }
}

/// The integer that a text stands for: decimal digits, at least one,
/// behind an optional sign; none for any other text.
pub open spec fn text_int(s: Seq<char>) -> Option<int> {
    if s.len() == 0 {
        None
    } else if s[0] == '-' {
        if s.len() > 1 && all_digits(s.subrange(1, s.len() as int)) {
            Some(-digits_number(s.subrange(1, s.len() as int)))
        } else {
            None
        }
    } else if s[0] == '+' {
        if s.len() > 1 && all_digits(s.subrange(1, s.len() as int)) {
            Some(digits_number(s.subrange(1, s.len() as int)))
        } else {
            None
        }
    } else if all_digits(s) {
        Some(digits_number(s))
    } else {
        None
    }
}

/// Where the text begins behind its leading white space, from `lo` on and
/// before `hi`.
pub open spec fn trimmed_start(s: Seq<char>, lo: int, hi: int) -> int
    decreases hi - lo,
{
    if lo < hi && 0 <= lo < s.len() && is_whitespace(s[lo]) {
        trimmed_start(s, lo + 1, hi)
    } else {
        lo
    }
}

/// Where the text ends in front of its trailing white space, before `hi`
/// and not before `lo`.
pub open spec fn trimmed_end(s: Seq<char>, lo: int, hi: int) -> int
    decreases hi - lo,
{
    if lo < hi && 0 < hi <= s.len() && is_whitespace(s[hi - 1]) {
        trimmed_end(s, lo, hi - 1)
    } else {
        hi
    }
}

/// The integer that the part of the text from `lo` to `hi` stands for,
/// white space around it left aside, if it is one that a component of a
/// key can hold.
pub open spec fn part_int(s: Seq<char>, lo: int, hi: int) -> Option<int> {
    let from = trimmed_start(s, lo, hi);
    let to = trimmed_end(s, from, hi);
    if 0 <= from <= to <= s.len() {
        match text_int(s.subrange(from, to)) {
            Some(v) => if -2_147_483_648 <= v <= 2_147_483_647 {
                Some(v)
            } else {
                None
            },
            None => None,
        }
    } else {
        None
    }
}

/// Whether `i` is the position of the only comma of the text.
pub open spec fn is_only_comma(s: Seq<char>, i: int) -> bool {
    &&& 0 <= i < s.len()
    &&& s[i] == ','
    &&& forall|j: int| 0 <= j < s.len() && j != i ==> s[j] != ','
}

/// The key that a text stands for: two integers with one comma between
/// them, each with white space around it left aside; none for any other
/// text.
pub open spec fn text_key(s: Seq<char>) -> Option<Coordinate> {
    if exists|i: int| is_only_comma(s, i) {
        let i = choose|i: int| is_only_comma(s, i);
        match (part_int(s, 0, i), part_int(s, i + 1, s.len() as int)) {
            (Some(x), Some(y)) => Some(Coordinate { x: x as i32, y: y as i32 }),
            _ => None,
        }
    } else {
        None
    }
}

/// The value of a decimal digit.
fn digit_of(c: char) -> (r: Option<u8>)
    ensures
        r is Some <==> digit_value(c) is Some,
        r is Some ==> r->0 == digit_value(c)->0 && r->0 < 10,
{
    if c == '0' {
        Some(0)
    } else if c == '1' {
        Some(1)
    } else if c == '2' {
        Some(2)
    } else if c == '3' {
        Some(3)
    } else if c == '4' {
        Some(4)
    } else if c == '5' {
        Some(5)
    } else if c == '6' {
        Some(6)
    } else if c == '7' {
        Some(7)
    } else if c == '8' {
        Some(8)
    } else if c == '9' {
        Some(9)
    } else {
        None
    }
}

/// The character of a decimal digit.
fn char_of_digit(d: u8) -> (c: char)
    requires
        d < 10,
    ensures
        c == digit_char(d as int),
{
    if d == 0 {
        '0'
    } else if d == 1 {
        '1'
    } else if d == 2 {
        '2'
    } else if d == 3 {
        '3'
    } else if d == 4 {
        '4'
    } else if d == 5 {
        '5'
    } else if d == 6 {
        '6'
    } else if d == 7 {
        '7'
    } else if d == 8 {
        '8'
    } else {
        '9'
    }
}

/// More digits never stand for a smaller number.
proof fn lemma_digits_number_grows(s: Seq<char>, k: int)
    requires
        0 <= k <= s.len(),
    ensures
        0 <= digits_number(s.subrange(0, k)) <= digits_number(s),
    decreases s.len() - k,
{
    lemma_digits_number_nonnegative(s.subrange(0, k));
    if k < s.len() {
        lemma_digits_number_grows(s, k + 1);
        let longer = s.subrange(0, k + 1);
        assert(longer.drop_last() == s.subrange(0, k));
    } else {
        assert(s.subrange(0, k) == s);
    }
}

proof fn lemma_digits_number_nonnegative(s: Seq<char>)
    ensures
        0 <= digits_number(s),
    decreases s.len(),
{
    if s.len() > 0 {
        lemma_digits_number_nonnegative(s.drop_last());
    }
}

/// The number that the digits from `lo` to `hi` stand for, if they are
/// digits and the number is at most `limit`.
fn read_digits(chars: &Vec<char>, lo: usize, hi: usize, limit: i64) -> (r: Option<i64>)
    requires
        lo <= hi <= chars@.len(),
        0 <= limit <= 2_147_483_648,
    ensures
        r is Some <==> all_digits(chars@.subrange(lo as int, hi as int)) && digits_number(
            chars@.subrange(lo as int, hi as int),
        ) <= limit,
        r is Some ==> r->0 == digits_number(chars@.subrange(lo as int, hi as int)),
        r is Some ==> 0 <= r->0 <= limit,
{
    let ghost part = chars@.subrange(lo as int, hi as int);
    let mut value: i64 = 0;
    let mut i: usize = lo;
    assert(part.subrange(0, 0) =~= Seq::<char>::empty());
    while i < hi
        invariant
            lo <= i <= hi,
            hi <= chars@.len(),
            part == chars@.subrange(lo as int, hi as int),
            0 <= limit <= 2_147_483_648,
            all_digits(part.subrange(0, i - lo)),
            value == digits_number(part.subrange(0, i - lo)),
            0 <= value <= limit,
        decreases hi - i,
    {
        let c = char_at(chars, i);
        let ghost seen = part.subrange(0, i - lo);
        let ghost next = part.subrange(0, i - lo + 1);
        proof {
            assert(next.drop_last() == seen);
            assert(next.last() == c);
            assert(part[i - lo] == c);
        }
        match digit_of(c) {
            None => {
                assert(!all_digits(part)) by {
                    if all_digits(part) {
                        assert(digit_value(part[i - lo]) is Some);
                    }
                }
                return None;
            },
            Some(d) => {
                let grown: i64 = value * 10 + d as i64;
                proof {
                    assert forall|j: int| 0 <= j < next.len() implies digit_value(#[trigger] next[j]) is Some by {
                        if j < seen.len() {
                            assert(next[j] == seen[j]);
                        }
                    }
                }
                if grown > limit {
                    proof {
                        lemma_digits_number_grows(part, i - lo + 1);
                    }
                    return None;
                }
                value = grown;
            },
        }
        i += 1;
    }
    assert(part.subrange(0, i - lo) == part);
    Some(value)
}

/// The integer that the part of the text from `lo` to `hi` stands for.
#[verifier::loop_isolation(false)]
fn read_part(chars: &Vec<char>, lo: usize, hi: usize) -> (r: Option<i32>)
    requires
        lo <= hi <= chars@.len(),
    ensures
        r is Some <==> part_int(chars@, lo as int, hi as int) is Some,
        r is Some ==> r->0 == part_int(chars@, lo as int, hi as int)->0,
{
    let ghost s = chars@;
    let mut from: usize = lo;
    while from < hi && is_whitespace_char(char_at(chars, from))
        invariant
            lo <= from <= hi,
            hi <= chars@.len(),
            s == chars@,
            trimmed_start(s, lo as int, hi as int) == trimmed_start(s, from as int, hi as int),
        decreases hi - from,
    {
        from += 1;
    }
    let mut to: usize = hi;
    while from < to && is_whitespace_char(char_at(chars, to - 1))
        invariant
            from <= to <= hi,
            hi <= chars@.len(),
            s == chars@,
            trimmed_start(s, lo as int, hi as int) == from,
            trimmed_end(s, from as int, hi as int) == trimmed_end(s, from as int, to as int),
        decreases to - from,
    {
        to -= 1;
    }
    let ghost text = s.subrange(from as int, to as int);
    if from == to {
        return None;
    }
    let first = char_at(chars, from);
    assert(text[0] == first);
    if first == '-' {
        if from + 1 == to {
            return None;
        }
        assert(text.subrange(1, text.len() as int) == s.subrange(from + 1, to as int));
        match read_digits(chars, from + 1, to, 2_147_483_648) {
            Some(v) => Some((-v) as i32),
            None => None,
        }
    } else if first == '+' {
        if from + 1 == to {
            return None;
        }
        assert(text.subrange(1, text.len() as int) == s.subrange(from + 1, to as int));
        match read_digits(chars, from + 1, to, 2_147_483_647) {
            Some(v) => Some(v as i32),
            None => None,
        }
    } else {
        match read_digits(chars, from, to, 2_147_483_647) {
            Some(v) => Some(v as i32),
            None => None,
        }
    }
}

/// Appends the digits of a natural number.
fn push_digits(out: &mut Vec<char>, n: u64)
    ensures
        final(out)@ == old(out)@ + nat_text(n as nat),
    decreases n,
{
    if n < 10 {
        let c = char_of_digit(n as u8);
        out.push(c);
        assert(out@ =~= old(out)@ + nat_text(n as nat));
    } else {
        push_digits(out, n / 10);
        let c = char_of_digit((n % 10) as u8);
        out.push(c);
        assert(out@ =~= old(out)@ + nat_text(n as nat));
    }
}

/// Appends the written form of an integer.
fn push_int(out: &mut Vec<char>, v: i32)
    ensures
        final(out)@ == old(out)@ + int_text(v as int),
{
    if v < 0 {
        out.push('-');
        let magnitude: u64 = (-(v as i64)) as u64;
        push_digits(out, magnitude);
        assert(out@ =~= old(out)@ + int_text(v as int));
    } else {
        push_digits(out, v as u64);
    }
}

impl Coordinate {
    /// Builds the key with the given components.
    pub fn new(x: i32, y: i32) -> (c: Coordinate)
        ensures
            c.x == x,
            c.y == y,
    {
        Coordinate { x, y }
    }

    /// Reads a key from its written form: two integers with one comma
    /// between them, each with white space around it left aside. Any other
    /// text is refused.
    #[verifier::loop_isolation(false)]
    pub fn try_from_key(value: &str) -> (r: Result<Coordinate, ()>)
        ensures
            r is Ok <==> text_key(value@) is Some,
            r is Ok ==> r->Ok_0 == text_key(value@)->0,
    {
        let chars = chars_of(value);
        let ghost s = chars@;
        let mut comma: Option<usize> = None;
        let mut i: usize = 0;
        while i < chars.len()
            invariant
                s == chars@,
                i <= s.len(),
                comma is None ==> forall|j: int| 0 <= j < i ==> s[j] != ',',
                comma is Some ==> comma->0 < i && s[comma->0 as int] == ',' && forall|j: int|
                    0 <= j < i && j != comma->0 ==> s[j] != ',',
            decreases chars.len() - i,
        {
            if char_at(&chars, i) == ',' {
                match comma {
                    Some(first) => {
                        assert(!(exists|k: int| is_only_comma(s, k))) by {
                            if exists|k: int| is_only_comma(s, k) {
                                let k = choose|k: int| is_only_comma(s, k);
                                if k != first {
                                    assert(s[first as int] != ',');
                                } else {
                                    assert(s[i as int] != ',');
                                }
                            }
                        }
                        return Err(());
                    },
                    None => {
                        comma = Some(i);
                    },
                }
            }
            i += 1;
        }
        let at = match comma {
            Some(at) => at,
            None => {
                assert(!(exists|k: int| is_only_comma(s, k))) by {
                    if exists|k: int| is_only_comma(s, k) {
                        let k = choose|k: int| is_only_comma(s, k);
                        assert(s[k] != ',');
                    }
                }
                return Err(());
            },
        };
        proof {
            assert(is_only_comma(s, at as int));
            let k = choose|k: int| is_only_comma(s, k);
            if k != at {
                assert(s[k] != ',');
            }
        }
        let x = match read_part(&chars, 0, at) {
            Some(x) => x,
            None => {
                return Err(());
            },
        };
        let y = match read_part(&chars, at + 1, chars.len()) {
            Some(y) => y,
            None => {
                return Err(());
            },
        };
        Ok(Coordinate { x, y })
    }

    /// The written form of the key.
    pub fn to_key(&self) -> (r: String)
        ensures
            r@ == key_text(*self),
    {
        let mut out: Vec<char> = Vec::new();
        push_int(&mut out, self.x);
        out.push(',');
        push_int(&mut out, self.y);
        assert(out@ =~= key_text(*self));
        string_of(&out)
    }
}

} // verus!
