//! Deciding whether a nondeterministic automaton accepts a string: what it
//! means to accept, and the backtracking walk that decides it.

use crate::automaton::{
    has_key, index_of, lemma_index_of_unique, targets_present, Automaton, AutomatonView, Edge, State, StateView,
    EPSILON,
};
use crate::coordinate::Coordinate;
use crate::masks::{count_true, lemma_count_true_bound, lemma_count_true_update, mask_with, new_mask};
use crate::simulation::views_of;
use crate::text::chars_of;
use vstd::prelude::*;

verus! {

/// Whether state `x` has an edge labelled `symbol` to state `y`.
pub open spec fn has_edge(a: AutomatonView, x: int, symbol: char, y: int) -> bool {
    &&& 0 <= x < a.len()
    &&& 0 <= y < a.len()
    &&& a[x].edges.contains(Edge { symbol, target: a[y].position })
}

/// Whether `p` is a path of epsilon edges: a non-empty sequence of states,
/// each joined to the next by an epsilon edge.
pub open spec fn is_eps_path(a: AutomatonView, p: Seq<int>) -> bool {
    &&& p.len() > 0
    &&& forall|t: int| 0 <= t < p.len() ==> 0 <= #[trigger] p[t] < a.len()
    &&& forall|t: int| 0 <= t < p.len() - 1 ==> has_edge(a, #[trigger] p[t], EPSILON, p[t + 1])
}

/// Whether state `y` can be reached from state `x` without reading input.
pub open spec fn eps_reaches(a: AutomatonView, x: int, y: int) -> bool {
    exists|p: Seq<int>| #[trigger] is_eps_path(a, p) && p[0] == x && p.last() == y
}

/// Whether a string is accepted starting right at state `j`, without an
/// epsilon move first: the empty string if `j` is final, any other by
/// reading its first symbol along an edge and accepting the rest from there.
pub open spec fn succeeds_at(a: AutomatonView, j: int, input: Seq<char>) -> bool
    decreases input.len(), 0int,
{
    if input.len() == 0 {
        a[j].is_final
    } else {
        exists|k: int| #[trigger] has_edge(a, j, input[0], k) && nfa_accepts_from(a, k, input.drop_first())
    }
}

/// Whether the automaton, started in state `i`, accepts `input`: some run
/// of epsilon moves and symbol-reading moves consumes it and ends in a
/// final state.
pub open spec fn nfa_accepts_from(a: AutomatonView, i: int, input: Seq<char>) -> bool
    decreases input.len(), 1int,
{
    exists|j: int| #[trigger] eps_reaches(a, i, j) && succeeds_at(a, j, input)
}

/// Whether the automaton, started in the state with key `start`, accepts
/// `input`. Without such a state nothing is accepted.
pub open spec fn nfa_accepts(a: AutomatonView, start: Coordinate, input: Seq<char>) -> bool {
    has_key(a, start) && nfa_accepts_from(a, index_of(a, start), input)
}

/// Whether `run` is an accepting run on `input`: a sequence of states,
/// each step an epsilon edge or an edge that reads the next symbol, that
/// consumes the input and ends in a final state.
pub open spec fn is_accepting_run(a: AutomatonView, run: Seq<usize>, input: Seq<char>) -> bool
    decreases run.len(),
{
    if run.len() == 0 {
        false
    } else if run.len() == 1 {
        run[0] < a.len() && input.len() == 0 && a[run[0] as int].is_final
    } else {
        ||| has_edge(a, run[0] as int, EPSILON, run[1] as int) && is_accepting_run(a, run.drop_first(), input)
        ||| input.len() > 0 && has_edge(a, run[0] as int, input[0], run[1] as int) && is_accepting_run(
            a,
            run.drop_first(),
            input.drop_first(),
        )
    }
}

/// Whether a path, after its first state, stays clear of the flagged
/// states.
pub open spec fn avoids(p: Seq<int>, on_path: Seq<bool>) -> bool {
    forall|t: int| 1 <= t < p.len() ==> !on_path[#[trigger] p[t]]
}

/// Whether `y` can be reached from `x` by epsilon edges without entering a
/// flagged state.
pub open spec fn eps_reaches_avoiding(a: AutomatonView, x: int, y: int, on_path: Seq<bool>) -> bool {
    exists|p: Seq<int>| #[trigger] is_eps_path(a, p) && p[0] == x && p.last() == y && avoids(p, on_path)
}

/// Whether the input is accepted from `x` by a run whose first epsilon
/// moves stay clear of the flagged states.
pub open spec fn found_from(a: AutomatonView, x: int, input: Seq<char>, on_path: Seq<bool>) -> bool {
    exists|j: int| #[trigger] eps_reaches_avoiding(a, x, j, on_path) && succeeds_at(a, j, input)
}

/// The last position, from `s` on, at which `k` occurs in `p`.
proof fn lemma_last_occurrence(p: Seq<int>, k: int, s: int) -> (t: int)
    requires
        0 <= s < p.len(),
        p[s] == k,
    ensures
        s <= t < p.len(),
        p[t] == k,
        forall|u: int| t < u < p.len() ==> p[u] != k,
    decreases p.len() - s,
{
    if exists|u: int| s < u < p.len() && p[u] == k {
        let u = choose|u: int| s < u < p.len() && p[u] == k;
        lemma_last_occurrence(p, k, u)
    } else {
        s
    }
}

/// The rest of an epsilon path, from any of its states on, is one.
proof fn lemma_suffix_path(a: AutomatonView, p: Seq<int>, t: int)
    requires
        is_eps_path(a, p),
        0 <= t < p.len(),
    ensures
        is_eps_path(a, p.subrange(t, p.len() as int)),
        p.subrange(t, p.len() as int)[0] == p[t],
        p.subrange(t, p.len() as int).last() == p.last(),
{
    let q = p.subrange(t, p.len() as int);
    assert forall|u: int| 0 <= u < q.len() implies 0 <= #[trigger] q[u] < a.len() by {
        assert(q[u] == p[t + u]);
    }
    assert forall|u: int| 0 <= u < q.len() - 1 implies has_edge(a, #[trigger] q[u], EPSILON, q[u + 1]) by {
        assert(has_edge(a, p[t + u], EPSILON, p[t + u + 1]));
    }
}

/// An epsilon edge in front of an epsilon path gives an epsilon path.
proof fn lemma_prepend_path(a: AutomatonView, x: int, p: Seq<int>)
    requires
        is_eps_path(a, p),
        has_edge(a, x, EPSILON, p[0]),
    ensures
        is_eps_path(a, seq![x] + p),
        (seq![x] + p)[0] == x,
        (seq![x] + p).last() == p.last(),
{
    let q = seq![x] + p;
    assert forall|u: int| 0 <= u < q.len() implies 0 <= #[trigger] q[u] < a.len() by {
        if u > 0 {
            assert(q[u] == p[u - 1]);
        }
    }
    assert forall|u: int| 0 <= u < q.len() - 1 implies has_edge(a, #[trigger] q[u], EPSILON, q[u + 1]) by {
        if u > 0 {
            assert(has_edge(a, p[u - 1], EPSILON, p[u - 1 + 1]));
        }
    }
}

/// What is reachable from `x` is reachable without coming back to `x`.
proof fn lemma_reaches_avoiding_self(a: AutomatonView, x: int, y: int, on_path: Seq<bool>)
    requires
        eps_reaches(a, x, y),
        forall|z: int| 0 <= z < a.len() && on_path[z] ==> z == x,
    ensures
        eps_reaches_avoiding(a, x, y, on_path),
{
    let p = choose|p: Seq<int>| #[trigger] is_eps_path(a, p) && p[0] == x && p.last() == y;
    let t = lemma_last_occurrence(p, x, 0);
    lemma_suffix_path(a, p, t);
    let q = p.subrange(t, p.len() as int);
    assert forall|u: int| 1 <= u < q.len() implies !on_path[#[trigger] q[u]] by {
        assert(q[u] == p[t + u]);
    }
    assert(is_eps_path(a, q) && avoids(q, on_path));
}

/// A path that stays clear of the flagged states, cut at the last visit
/// of its second state, also stays clear of that state.
proof fn lemma_child_avoiding(a: AutomatonView, p: Seq<int>, on_path: Seq<bool>)
    requires
        is_eps_path(a, p),
        avoids(p, on_path),
        p.len() > 1,
        on_path.len() == a.len(),
    ensures
        eps_reaches_avoiding(a, p[1], p.last(), on_path.update(p[1], true)),
{
    let k = p[1];
    let t = lemma_last_occurrence(p, k, 1);
    lemma_suffix_path(a, p, t);
    let q = p.subrange(t, p.len() as int);
    let flags = on_path.update(k, true);
    assert forall|u: int| 1 <= u < q.len() implies !flags[#[trigger] q[u]] by {
        assert(q[u] == p[t + u]);
        assert(!on_path[p[t + u]]);
    }
    assert(is_eps_path(a, q) && avoids(q, flags));
}

/// With no state flagged but the one a run starts in, the restricted
/// notion of acceptance is acceptance.
proof fn lemma_found_from_start(a: AutomatonView, x: int, input: Seq<char>, on_path: Seq<bool>)
    requires
        forall|z: int| 0 <= z < a.len() && on_path[z] ==> z == x,
    ensures
        found_from(a, x, input, on_path) == nfa_accepts_from(a, x, input),
{
    if found_from(a, x, input, on_path) {
        let j = choose|j: int| #[trigger] eps_reaches_avoiding(a, x, j, on_path) && succeeds_at(a, j, input);
        let p = choose|p: Seq<int>| #[trigger] is_eps_path(a, p) && p[0] == x && p.last() == j && avoids(p, on_path);
        assert(eps_reaches(a, x, j));
    }
    if nfa_accepts_from(a, x, input) {
        let j = choose|j: int| #[trigger] eps_reaches(a, x, j) && succeeds_at(a, j, input);
        lemma_reaches_avoiding_self(a, x, j, on_path);
    }
}

/// The flags for a walk that has just entered state `k`: only `k` is set.
fn only_flag(n: usize, k: usize) -> (flags: Vec<bool>)
    requires
        k < n,
    ensures
        flags@.len() == n,
        flags@[k as int],
        forall|z: int| 0 <= z < n && flags@[z] ==> z == k,
{
    let none = new_mask(n);
    mask_with(&none, k)
}

/// The backtracking walk. From state `current`, with the input from `pos`
/// on still to read, it tries every edge that reads the next symbol, and
/// every epsilon edge that does not lead back into a state already entered
/// since the last symbol was read (those are flagged in `on_path`). It
/// returns whether some branch accepts, and if so the run it found.
#[verifier::loop_isolation(false)]
pub fn nfa_delta_function(
    a: &Automaton,
    current: usize,
    input: &Vec<char>,
    pos: usize,
    on_path: &Vec<bool>,
) -> (r: (bool, Vec<usize>))
    requires
        a.well_formed(),
        targets_present(a@),
        current < a@.len(),
        pos <= input@.len(),
        on_path@.len() == a@.len(),
        on_path@[current as int],
    ensures
        r.0 == found_from(a@, current as int, input@.subrange(pos as int, input@.len() as int), on_path@),
        r.0 ==> r.1@.len() > 0 && r.1@[0] == current && is_accepting_run(
            a@,
            r.1@,
            input@.subrange(pos as int, input@.len() as int),
        ),
        !r.0 ==> r.1@.len() == 0,
    decreases input@.len() - pos, a@.len() - count_true(on_path@),
{
    let ghost av = a@;
    let ghost rest = input@.subrange(pos as int, input@.len() as int);
    let ghost x = current as int;
    let n = a.len();
    let state = &a.states[current];
    let ghost edges = state.connections@;
    proof {
        lemma_count_true_bound(on_path@);
        assert(av[x] == a.states@[x]@);
        assert(is_eps_path(av, seq![x]));
        assert(avoids(seq![x], on_path@));
        assert(eps_reaches_avoiding(av, x, x, on_path@));
    }
    let ghost rest1 = rest.drop_first();
    if pos == input.len() {
        if state.is_final() {
            let mut run: Vec<usize> = Vec::new();
            run.push(current);
            assert(succeeds_at(av, x, rest));
            return (true, run);
        }
    } else {
        let c = input[pos];
        proof {
            assert(rest[0] == c);
            assert(rest1 == input@.subrange(pos + 1, input@.len() as int));
        }
        let mut e1: usize = 0;
        while e1 < state.connections.len()
            invariant
                e1 <= edges.len(),
                forall|idx: int, k: int|
                    0 <= idx < e1 && 0 <= k < n && #[trigger] edges[idx] == (Edge {
                        symbol: c,
                        target: (#[trigger] av[k]).position,
                    }) ==> !nfa_accepts_from(av, k, rest1),
            decreases edges.len() - e1,
        {
            let edge = state.connections[e1];
            if edge.symbol == c {
                match a.position_of(edge.target) {
                    Some(k) => {
                        let fresh = only_flag(n, k);
                        let (found, mut run) = nfa_delta_function(a, k, input, pos + 1, &fresh);
                        proof {
                            lemma_found_from_start(av, k as int, rest1, fresh@);
                            assert(edges.contains(Edge { symbol: c, target: av[k as int].position }));
                            assert(has_edge(av, x, c, k as int));
                        }
                        if found {
                            let ghost child = run@;
                            run.insert(0, current);
                            proof {
                                assert(run@.drop_first() == child);
                                assert(succeeds_at(av, x, rest));
                            }
                            return (true, run);
                        }
                        proof {
                            assert forall|idx: int, m: int|
                                0 <= idx < e1 + 1 && 0 <= m < n && #[trigger] edges[idx] == (Edge {
                                    symbol: c,
                                    target: (#[trigger] av[m]).position,
                                }) implies !nfa_accepts_from(av, m, rest1) by {
                                if idx == e1 {
                                    lemma_index_of_unique(av, m);
                                    lemma_index_of_unique(av, k as int);
                                }
                            }
                        }
                    },
                    None => {
                        proof {
                            assert forall|idx: int, m: int|
                                0 <= idx < e1 + 1 && 0 <= m < n && #[trigger] edges[idx] == (Edge {
                                    symbol: c,
                                    target: (#[trigger] av[m]).position,
                                }) implies !nfa_accepts_from(av, m, rest1) by {
                                if idx == e1 {
                                    assert(has_key(av, av[m].position));
                                }
                            }
                        }
                    },
                }
            }
            e1 += 1;
        }
    }
    let mut e2: usize = 0;
    while e2 < state.connections.len()
        invariant
            e2 <= edges.len(),
            forall|idx: int, k: int|
                0 <= idx < e2 && 0 <= k < n && #[trigger] edges[idx] == (Edge {
                    symbol: EPSILON,
                    target: (#[trigger] av[k]).position,
                }) && !on_path@[k] ==> !found_from(av, k, rest, on_path@.update(k, true)),
        decreases edges.len() - e2,
    {
        let edge = state.connections[e2];
        if edge.symbol == EPSILON {
            match a.position_of(edge.target) {
                Some(k) => {
                    if !on_path[k] {
                        let child_flags = mask_with(on_path, k);
                        proof {
                            lemma_count_true_update(on_path@, k as int);
                            lemma_count_true_bound(child_flags@);
                            assert(edges.contains(Edge { symbol: EPSILON, target: av[k as int].position }));
                            assert(has_edge(av, x, EPSILON, k as int));
                        }
                        let (found, mut run) = nfa_delta_function(a, k, input, pos, &child_flags);
                        if found {
                            let ghost child = run@;
                            run.insert(0, current);
                            proof {
                                assert(run@.drop_first() == child);
                                let j = choose|j: int| #[trigger]
                                    eps_reaches_avoiding(av, k as int, j, child_flags@) && succeeds_at(av, j, rest);
                                let p = choose|p: Seq<int>| #[trigger]
                                    is_eps_path(av, p) && p[0] == k && p.last() == j && avoids(p, child_flags@);
                                lemma_prepend_path(av, x, p);
                                let q = seq![x] + p;
                                assert forall|t: int| 1 <= t < q.len() implies !on_path@[#[trigger] q[t]] by {
                                    assert(q[t] == p[t - 1]);
                                    if t > 1 {
                                        assert(!child_flags@[p[t - 1]]);
                                    }
                                }
                                assert(is_eps_path(av, q) && avoids(q, on_path@));
                                assert(eps_reaches_avoiding(av, x, j, on_path@));
                            }
                            return (true, run);
                        }
                    }
                    proof {
                        assert forall|idx: int, m: int|
                            0 <= idx < e2 + 1 && 0 <= m < n && #[trigger] edges[idx] == (Edge {
                                symbol: EPSILON,
                                target: (#[trigger] av[m]).position,
                            }) && !on_path@[m] implies !found_from(av, m, rest, on_path@.update(m, true)) by {
                            if idx == e2 {
                                lemma_index_of_unique(av, m);
                                lemma_index_of_unique(av, k as int);
                            }
                        }
                    }
                },
                None => {
                    proof {
                        assert forall|idx: int, m: int|
                            0 <= idx < e2 + 1 && 0 <= m < n && #[trigger] edges[idx] == (Edge {
                                symbol: EPSILON,
                                target: (#[trigger] av[m]).position,
                            }) && !on_path@[m] implies !found_from(av, m, rest, on_path@.update(m, true)) by {
                            if idx == e2 {
                                assert(has_key(av, av[m].position));
                            }
                        }
                    }
                },
            }
        }
        e2 += 1;
    }
    proof {
        if found_from(av, x, rest, on_path@) {
            let j = choose|j: int| #[trigger] eps_reaches_avoiding(av, x, j, on_path@) && succeeds_at(av, j, rest);
            let p = choose|p: Seq<int>| #[trigger]
                is_eps_path(av, p) && p[0] == x && p.last() == j && avoids(p, on_path@);
            if p.len() == 1 {
                if rest.len() > 0 {
                    let k = choose|k: int| #[trigger] has_edge(av, x, rest[0], k) && nfa_accepts_from(av, k, rest1);
                    let idx = choose|idx: int|
                        0 <= idx < edges.len() && edges[idx] == (Edge { symbol: rest[0], target: av[k].position });
                    assert(edges[idx] == (Edge { symbol: rest[0], target: av[k].position }));
                    assert(false);
                }
            } else {
                let k = p[1];
                assert(has_edge(av, p[0int], EPSILON, p[0int + 1]));
                lemma_child_avoiding(av, p, on_path@);
                assert(!on_path@[p[1]]);
                let idx = choose|idx: int|
                    0 <= idx < edges.len() && edges[idx] == (Edge { symbol: EPSILON, target: av[k].position });
                assert(edges[idx] == (Edge { symbol: EPSILON, target: av[k].position }));
                assert(found_from(av, k, rest, on_path@.update(k, true)));
                assert(false);
            }
        }
    }
    (false, Vec::new())
}

/// Walks the automaton from the state with key `start_state_coordinates`
/// over `string_to_check`, following epsilon edges without reading input,
/// and backtracking over the choices. Returns whether some run accepts.
/// With an accepting run come the states of one, in order; without, the
/// start state alone; and nothing at all where the start state is missing.
pub fn test_string_nfa(a: &Automaton, start_state_coordinates: Coordinate, string_to_check: &str) -> (r: (
    bool,
    Vec<State>,
))
    requires
        a.well_formed(),
        targets_present(a@),
    ensures
        r.0 == nfa_accepts(a@, start_state_coordinates, string_to_check@),
        r.0 ==> exists|run: Seq<usize>|
            #![auto]
            is_accepting_run(a@, run, string_to_check@) && run[0] == index_of(a@, start_state_coordinates)
                && views_of(r.1@) == run_states(a@, run),
        !r.0 && has_key(a@, start_state_coordinates) ==> views_of(r.1@) == seq![
            a@[index_of(a@, start_state_coordinates)],
        ],
        !has_key(a@, start_state_coordinates) ==> r.1@.len() == 0,
{
    let mut states_visited: Vec<State> = Vec::new();
    let start = match a.position_of(start_state_coordinates) {
        Some(i) => i,
        None => {
            return (false, states_visited);
        },
    };
    let input = chars_of(string_to_check);
    let flags = only_flag(a.len(), start);
    let (found, run) = nfa_delta_function(a, start, &input, 0, &flags);
    proof {
        assert(input@.subrange(0, input@.len() as int) == input@);
        lemma_found_from_start(a@, start as int, input@, flags@);
    }
    if !found {
        states_visited.push(a.states[start].clone());
        assert(views_of(states_visited@) =~= seq![a@[start as int]]);
        return (false, states_visited);
    }
    proof {
        lemma_run_in_range(a@, run@, input@);
    }
    let mut i: usize = 0;
    while i < run.len()
        invariant
            i <= run@.len(),
            states_visited@.len() == i,
            forall|t: int| 0 <= t < run@.len() ==> (#[trigger] run@[t]) < a@.len(),
            forall|t: int| 0 <= t < i ==> (#[trigger] states_visited@[t])@ == a@[run@[t] as int],
        decreases run.len() - i,
    {
        assert(a@[run@[i as int] as int] == a.states@[run@[i as int] as int]@);
        states_visited.push(a.states[run[i]].clone());
        i += 1;
    }
    assert(views_of(states_visited@) =~= run_states(a@, run@));
    (true, states_visited)
}

/// The states that a run passes.
pub open spec fn run_states(a: AutomatonView, run: Seq<usize>) -> Seq<StateView> {
    Seq::new(run.len(), |t: int| a[run[t] as int])
}

/// Every state of an accepting run is a state of the automaton.
pub proof fn lemma_run_in_range(a: AutomatonView, run: Seq<usize>, input: Seq<char>)
    requires
        is_accepting_run(a, run, input),
    ensures
        forall|t: int| 0 <= t < run.len() ==> (#[trigger] run[t]) < a.len(),
    decreases run.len(),
{
    if run.len() > 1 {
        let rest = run.drop_first();
        if has_edge(a, run[0] as int, EPSILON, run[1] as int) && is_accepting_run(a, rest, input) {
            lemma_run_in_range(a, rest, input);
        } else {
            lemma_run_in_range(a, rest, input.drop_first());
        }
        assert forall|t: int| 0 <= t < run.len() implies (#[trigger] run[t]) < a.len() by {
            if t > 0 {
                assert(run[t] == rest[t - 1]);
            }
        }
    }
}

} // verus!
