//! Small helpers on text.

use vstd::prelude::*;

verus! {

/// The characters of `s`, in order.
pub fn chars_of(s: &str) -> (v: Vec<char>)
    ensures
        v@ == s@,
{
    let mut v: Vec<char> = Vec::new();
    for c in it: s.chars()
        invariant
            v@ == it.seq().take(it.index() as int),
            it.seq() == s@,
    {
        v.push(c);
    }
    v
}

/// The string made of the given characters. Its body is the call of
/// `String::from_iter` on the characters, which std documents to collect
/// them in order; the contract, that the string holds exactly these
/// characters, is taken on trust.
#[verifier::external_body]
pub(crate) fn string_of(chars: &Vec<char>) -> (s: String)
    ensures
        s@ == chars@,
{
    String::from_iter(chars.iter())
}

/// The character at position `i`.
pub fn char_at(chars: &Vec<char>, i: usize) -> (c: char)
    requires
        i < chars@.len(),
    ensures
        c == chars@[i as int],
{
    chars[i]
}

/// A copy of the characters.
pub fn clone_text(text: &Vec<char>) -> (r: Vec<char>)
    ensures
        r@ == text@,
{
    let mut r: Vec<char> = Vec::new();
    let mut i: usize = 0;
    while i < text.len()
        invariant
            i <= text.len(),
            r@ == text@.subrange(0, i as int),
        decreases text.len() - i,
    {
        r.push(text[i]);
        i += 1;
    }
    assert(text@.subrange(0, i as int) == text@);
    r
}

} // verus!
