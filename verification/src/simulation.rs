//! Deciding whether an automaton accepts a string: the deterministic walk
//! and what it means, mathematically, to accept.

use crate::automaton::{
    first_target, has_edge_on, has_key, index_of, lemma_first_target_is_some, targets_present, Automaton,
    AutomatonView, State, StateView,
};
use crate::coordinate::Coordinate;
use crate::text::chars_of;
use vstd::prelude::*;

verus! {

/// Where a deterministic walk goes from state `i` on `symbol`: to the target
/// of the first edge with that label, provided that target is present.
pub open spec fn dfa_step(a: AutomatonView, i: int, symbol: char) -> Option<int> {
    match first_target(a[i].edges, symbol) {
        Some(t) => if has_key(a, t) {
            Some(index_of(a, t))
        } else {
            None
        },
        None => None,
    }
}

/// Whether the deterministic walk that starts in state `i` and reads
/// `input` ends in a final state. A symbol without a way out rejects.
pub open spec fn dfa_accepts_from(a: AutomatonView, i: int, input: Seq<char>) -> bool
    decreases input.len(),
{
    if input.len() == 0 {
        a[i].is_final
    } else {
        match dfa_step(a, i, input[0]) {
            Some(j) => dfa_accepts_from(a, j, input.drop_first()),
            None => false,
        }
    }
}

/// Whether the deterministic walk from the state with key `start` accepts
/// `input`. Without such a state nothing is accepted.
pub open spec fn dfa_accepts(a: AutomatonView, start: Coordinate, input: Seq<char>) -> bool {
    has_key(a, start) && dfa_accepts_from(a, index_of(a, start), input)
}

/// The states that the deterministic walk from state `i` on `input` passes,
/// the first one included, up to where it ends or gets stuck.
pub open spec fn dfa_trace_from(a: AutomatonView, i: int, input: Seq<char>) -> Seq<StateView>
    decreases input.len(),
{
    if input.len() == 0 {
        seq![a[i]]
    } else {
        match dfa_step(a, i, input[0]) {
            Some(j) => seq![a[i]] + dfa_trace_from(a, j, input.drop_first()),
            None => seq![a[i]],
        }
    }
}

/// The states passed by the deterministic walk from the state with key
/// `start`; none when that state is missing.
pub open spec fn dfa_trace(a: AutomatonView, start: Coordinate, input: Seq<char>) -> Seq<StateView> {
    if has_key(a, start) {
        dfa_trace_from(a, index_of(a, start), input)
    } else {
        Seq::empty()
    }
}

/// The views of a sequence of states.
pub open spec fn views_of(states: Seq<State>) -> Seq<StateView> {
    Seq::new(states.len(), |i: int| states[i]@)
}

/// The position of the state that the first edge on `symbol` of the state
/// at `i` leads to, if there is such an edge and such a state.
pub(crate) fn first_step(a: &Automaton, i: usize, symbol: char) -> (r: Option<usize>)
    requires
        a.well_formed(),
        i < a@.len(),
    ensures
        r is Some <==> dfa_step(a@, i as int, symbol) is Some,
        r is Some ==> r->0 == dfa_step(a@, i as int, symbol)->0 && r->0 < a@.len(),
{
    assert(a@[i as int] == a.states@[i as int]@);
    match a.states[i].get_first_connected_state_key_by_character(symbol) {
        Some(t) => a.position_of(t),
        None => None,
    }
}

/// The state that a deterministic walk reaches from the state at `i` on
/// `symbol`: the target of the first edge with that symbol. There is none
/// exactly where the state has no edge with the symbol. Every edge of the
/// automaton has to lead to a state that is there.
pub fn dfa_delta_function<'a>(a: &'a Automaton, i: usize, symbol: char) -> (r: Option<usize>)
    requires
        a.well_formed(),
        targets_present(a@),
        i < a@.len(),
    ensures
        r is Some <==> has_edge_on(a@[i as int].edges, symbol),
        r is Some <==> dfa_step(a@, i as int, symbol) is Some,
        r is Some ==> r->0 == dfa_step(a@, i as int, symbol)->0 && r->0 < a@.len(),
{
    proof {
        let edges = a@[i as int].edges;
        lemma_first_target_is_some(edges, symbol);
        if has_edge_on(edges, symbol) {
            let k = choose|k: int|
                0 <= k < edges.len() && (#[trigger] edges[k]).symbol == symbol && edges[k].target == first_target(
                    edges,
                    symbol,
                )->0;
            assert(has_key(a@, a@[i as int].edges[k].target));
        }
    }
    first_step(a, i, symbol)
}

/// Walks the automaton deterministically from the state with key
/// `start_state_coordinates` over `string_to_check`. Returns whether the walk
/// accepts, and the states it passed. Every edge of the automaton has to
/// lead to a state that is there; a start state that is missing gives a walk
/// that accepts nothing and passes no state.
#[verifier::loop_isolation(false)]
pub fn test_string_dfa(a: &Automaton, start_state_coordinates: Coordinate, string_to_check: &str) -> (r: (
    bool,
    Vec<State>,
))
    requires
        a.well_formed(),
        targets_present(a@),
    ensures
        r.0 == dfa_accepts(a@, start_state_coordinates, string_to_check@),
        views_of(r.1@) == dfa_trace(a@, start_state_coordinates, string_to_check@),
{
    let mut states_visited: Vec<State> = Vec::new();
    let start = match a.position_of(start_state_coordinates) {
        Some(i) => i,
        None => {
            assert(views_of(states_visited@) =~= Seq::<StateView>::empty());
            return (false, states_visited);
        },
    };
    let input = chars_of(string_to_check);
    let ghost w = input@;
    let mut current: usize = start;
    states_visited.push(a.states[current].clone());
    let mut pos: usize = 0;
    assert(w.subrange(0, w.len() as int) == w);
    assert(views_of(states_visited@).drop_last() =~= Seq::<StateView>::empty());
    while pos < input.len()
        invariant
            a.well_formed(),
            targets_present(a@),
            w == input@,
            pos <= input.len(),
            current < a@.len(),
            states_visited@.len() > 0,
            states_visited@.last()@ == a@[current as int],
            dfa_accepts_from(a@, start as int, w) == dfa_accepts_from(
                a@,
                current as int,
                w.subrange(pos as int, w.len() as int),
            ),
            dfa_trace_from(a@, start as int, w) == views_of(states_visited@).drop_last() + dfa_trace_from(
                a@,
                current as int,
                w.subrange(pos as int, w.len() as int),
            ),
        decreases input.len() - pos,
    {
        let ghost rest = w.subrange(pos as int, w.len() as int);
        assert(rest[0] == w[pos as int]);
        assert(rest.drop_first() == w.subrange(pos + 1, w.len() as int));
        let ghost seen = views_of(states_visited@);
        match dfa_delta_function(a, current, input[pos]) {
            Some(next) => {
                states_visited.push(a.states[next].clone());
                proof {
                    assert(a@[next as int] == a.states@[next as int]@);
                    let now = views_of(states_visited@);
                    assert(now.drop_last() =~= seen);
                    assert(seen =~= seen.drop_last().push(a@[current as int]));
                    assert(seen.drop_last() + (seq![a@[current as int]] + dfa_trace_from(
                        a@,
                        next as int,
                        rest.drop_first(),
                    )) =~= now.drop_last() + dfa_trace_from(a@, next as int, rest.drop_first()));
                }
                current = next;
            },
            None => {
                proof {
                    assert(seen =~= seen.drop_last() + seq![a@[current as int]]);
                }
                return (false, states_visited);
            },
        }
        pos += 1;
    }
    proof {
        let seen = views_of(states_visited@);
        assert(w.subrange(pos as int, w.len() as int).len() == 0);
        assert(seen =~= seen.drop_last() + seq![a@[current as int]]);
    }
    (a.states[current].is_final(), states_visited)
}

} // verus!
