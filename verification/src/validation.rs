//! Checks on what a caller hands in: whether an automaton is a strict
//! deterministic one over an alphabet, and the cleaning of an alphabet.

use crate::automaton::{Automaton, AutomatonView, Edge};
use crate::text::chars_of;
use vstd::prelude::*;

verus! {

/// Whether the edge at `i` is the only one labelled `symbol`.
pub open spec fn is_only_edge_on(edges: Seq<Edge>, symbol: char, i: int) -> bool {
    &&& 0 <= i < edges.len()
    &&& edges[i].symbol == symbol
    &&& forall|j: int| 0 <= j < edges.len() && j != i ==> (#[trigger] edges[j]).symbol != symbol
}

/// Whether a state's edges fit a strict deterministic automaton over the
/// alphabet: exactly one edge for every symbol of the alphabet, and none
/// for any other symbol.
pub open spec fn edges_fit_alphabet(edges: Seq<Edge>, alphabet: Seq<char>) -> bool {
    &&& forall|k: int| 0 <= k < alphabet.len() ==> has_only_edge_on(edges, #[trigger] alphabet[k])
    &&& forall|i: int| 0 <= i < edges.len() ==> alphabet.contains((#[trigger] edges[i]).symbol)
}

/// Whether exactly one edge is labelled `symbol`.
pub open spec fn has_only_edge_on(edges: Seq<Edge>, symbol: char) -> bool {
    exists|i: int| is_only_edge_on(edges, symbol, i)
}

/// Whether the automaton is a strict deterministic one over the alphabet:
/// every state has exactly one edge for every symbol of the alphabet and
/// none outside it.
pub open spec fn structurally_valid_dfa(a: AutomatonView, alphabet: Seq<char>) -> bool {
    forall|s: int| 0 <= s < a.len() ==> edges_fit_alphabet((#[trigger] a[s]).edges, alphabet)
}

/// The number of edges labelled `symbol`, counted up to two, and the
/// position of the first of them.
fn count_edges_on(edges: &Vec<Edge>, symbol: char) -> (r: (usize, usize))
    ensures
        r.0 == 1 <==> has_only_edge_on(edges@, symbol),
        r.0 == 1 ==> is_only_edge_on(edges@, symbol, r.1 as int),
{
    let mut count: usize = 0;
    let mut at: usize = 0;
    let mut i: usize = 0;
    while i < edges.len()
        invariant
            i <= edges.len(),
            count <= 2,
            count == 0 ==> forall|j: int| 0 <= j < i ==> (#[trigger] edges@[j]).symbol != symbol,
            count == 1 ==> at < i && edges@[at as int].symbol == symbol && forall|j: int|
                0 <= j < i && j != at ==> (#[trigger] edges@[j]).symbol != symbol,
            count == 2 ==> exists|p: int, q: int|
                0 <= p < q < i && (#[trigger] edges@[p]).symbol == symbol && (#[trigger] edges@[q]).symbol
                    == symbol,
        decreases edges.len() - i,
    {
        if edges[i].symbol == symbol {
            if count == 0 {
                count = 1;
                at = i;
            } else if count == 1 {
                assert(edges@[at as int].symbol == symbol && edges@[i as int].symbol == symbol);
                count = 2;
            }
        }
        i += 1;
    }
    proof {
        if count != 1 && exists|k: int| is_only_edge_on(edges@, symbol, k) {
            let k = choose|k: int| is_only_edge_on(edges@, symbol, k);
            if count == 0 {
                assert(edges@[k].symbol != symbol);
            } else {
                lemma_two_edges_exclude_only(edges@, symbol, k);
            }
        }
        if count == 1 {
            assert(is_only_edge_on(edges@, symbol, at as int));
        }
    }
    (count, at)
}

/// Whether `alphabet` holds `symbol`.
pub fn alphabet_contains(alphabet: &Vec<char>, symbol: char) -> (b: bool)
    ensures
        b == alphabet@.contains(symbol),
{
    let mut i: usize = 0;
    while i < alphabet.len()
        invariant
            i <= alphabet.len(),
            forall|j: int| 0 <= j < i ==> alphabet@[j] != symbol,
        decreases alphabet.len() - i,
    {
        if alphabet[i] == symbol {
            return true;
        }
        i += 1;
    }
    false
}

/// Whether the edges fit a strict deterministic automaton over the alphabet.
fn edges_are_valid(edges: &Vec<Edge>, input_alphabet: &Vec<char>) -> (b: bool)
    ensures
        b == edges_fit_alphabet(edges@, input_alphabet@),
{
    let mut k: usize = 0;
    while k < input_alphabet.len()
        invariant
            k <= input_alphabet.len(),
            forall|l: int| 0 <= l < k ==> has_only_edge_on(edges@, #[trigger] input_alphabet@[l]),
        decreases input_alphabet.len() - k,
    {
        let (count, at) = count_edges_on(edges, input_alphabet[k]);
        if count != 1 {
            return false;
        }
        k += 1;
    }
    let mut i: usize = 0;
    while i < edges.len()
        invariant
            i <= edges.len(),
            forall|l: int|
                0 <= l < input_alphabet@.len() ==> has_only_edge_on(edges@, #[trigger] input_alphabet@[l]),
            forall|j: int| 0 <= j < i ==> input_alphabet@.contains((#[trigger] edges@[j]).symbol),
        decreases edges.len() - i,
    {
        if !alphabet_contains(input_alphabet, edges[i].symbol) {
            return false;
        }
        i += 1;
    }
    true
}

/// With an only edge on a symbol, no second edge carries it.
proof fn lemma_two_edges_exclude_only(edges: Seq<Edge>, symbol: char, i: int)
    requires
        is_only_edge_on(edges, symbol, i),
    ensures
        forall|p: int, q: int|
            0 <= p < q < edges.len() ==> !((#[trigger] edges[p]).symbol == symbol && (#[trigger] edges[q]).symbol
                == symbol),
{
    assert forall|p: int, q: int| 0 <= p < q < edges.len() implies !((#[trigger] edges[p]).symbol == symbol && (
    #[trigger] edges[q]).symbol == symbol) by {
        if p != i {
            assert(edges[p].symbol != symbol);
        } else {
            assert(edges[q].symbol != symbol);
        }
    }
}

/// Whether the automaton is a strict deterministic one over the alphabet:
/// every state has exactly one edge for every symbol of the alphabet and
/// none outside it.
pub fn verify_valid_dfa(a: &Automaton, input_alphabet: &Vec<char>) -> (valid: bool)
    ensures
        valid == structurally_valid_dfa(a@, input_alphabet@),
{
    let mut s: usize = 0;
    while s < a.states.len()
        invariant
            s <= a.states.len(),
            forall|t: int| 0 <= t < s ==> edges_fit_alphabet((#[trigger] a@[t]).edges, input_alphabet@),
        decreases a.states.len() - s,
    {
        assert(a@[s as int] == a.states@[s as int]@);
        if !edges_are_valid(&a.states[s].connections, input_alphabet) {
            return false;
        }
        s += 1;
    }
    true
}

/// Whether an entry of an alphabet is a symbol: a single character of the
/// basic character set.
pub open spec fn is_symbol(entry: Seq<char>) -> bool {
    entry.len() == 1 && (entry[0] as u32) < 128
}

/// The alphabet made of the given entries: the entries that are symbols,
/// in order, each once.
pub open spec fn sanitized(entries: Seq<Seq<char>>) -> Seq<Seq<char>>
    decreases entries.len(),
{
    if entries.len() == 0 {
        Seq::empty()
    } else {
        let front = sanitized(entries.drop_last());
        if is_symbol(entries.last()) && !front.contains(entries.last()) {
            front.push(entries.last())
        } else {
            front
        }
    }
}

/// The texts of a list of strings.
pub open spec fn string_views(strings: Seq<String>) -> Seq<Seq<char>> {
    Seq::new(strings.len(), |i: int| strings[i]@)
}

/// The texts of a list of string slices.
pub open spec fn str_views(strings: Seq<&str>) -> Seq<Seq<char>> {
    Seq::new(strings.len(), |i: int| strings[i]@)
}

/// Whether the list holds a string with the given text.
fn contains_text(strings: &Vec<String>, wanted: &String) -> (b: bool)
    ensures
        b == string_views(strings@).contains(wanted@),
{
    let mut i: usize = 0;
    while i < strings.len()
        invariant
            i <= strings.len(),
            forall|j: int| 0 <= j < i ==> string_views(strings@)[j] != wanted@,
        decreases strings.len() - i,
    {
        assert(string_views(strings@)[i as int] == strings@[i as int]@);
        if strings[i] == *wanted {
            return true;
        }
        i += 1;
    }
    false
}

/// Cleans an alphabet: keeps the entries that are a single character of
/// the basic character set, in order, each once.
pub fn sanitize_input_alphabet(alphabet: Vec<&str>) -> (r: Vec<String>)
    ensures
        string_views(r@) == sanitized(str_views(alphabet@)),
{
    let ghost entries = str_views(alphabet@);
    let mut kept: Vec<String> = Vec::new();
    let mut i: usize = 0;
    assert(string_views(kept@) =~= Seq::<Seq<char>>::empty());
    assert(entries.subrange(0, 0) =~= Seq::<Seq<char>>::empty());
    while i < alphabet.len()
        invariant
            entries == str_views(alphabet@),
            i <= alphabet.len(),
            string_views(kept@) == sanitized(entries.subrange(0, i as int)),
        decreases alphabet.len() - i,
    {
        let entry = alphabet[i];
        proof {
            assert(entries.subrange(0, i + 1).drop_last() == entries.subrange(0, i as int));
            assert(entries.subrange(0, i + 1).last() == entry@);
        }
        let chars = chars_of(entry);
        let is_one = chars.len() == 1 && (chars[0] as u32) < 128;
        if is_one {
            let owned = entry.to_owned();
            if !contains_text(&kept, &owned) {
                let ghost before = string_views(kept@);
                kept.push(owned);
                assert(string_views(kept@) =~= before.push(entry@));
            }
        }
        i += 1;
    }
    assert(entries.subrange(0, i as int) == entries);
    kept
}

} // verus!
