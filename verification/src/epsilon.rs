//! Folding epsilon edges into ordinary edges and acceptance, so that an
//! automaton can be walked without epsilon moves.

use crate::automaton::{
    contains_edge, edges_distinct, has_key, index_of, keys_distinct, lemma_index_of_unique, targets_present,
    well_formed, Automaton, AutomatonView, Edge, State, EPSILON,
};
use crate::masks::{count_true, lemma_count_true_bound, lemma_count_true_update, lemma_push_contains, new_mask};
use crate::nfa_simulation::{eps_reaches, has_edge, is_eps_path, nfa_accepts, nfa_accepts_from, succeeds_at};
use vstd::prelude::*;

verus! {

/// No edge of the automaton is an epsilon edge.
pub open spec fn epsilon_free(a: AutomatonView) -> bool {
    forall|i: int, j: int| 0 <= i < a.len() && 0 <= j < a[i].edges.len() ==> (#[trigger] a[i].edges[j]).symbol != EPSILON
}

/// Whether `r` is `a` with its epsilon edges folded in: the states are the
/// same; a state is final if it reaches a final state by epsilon edges; and
/// its edges are the ordinary edges of all the states it reaches by epsilon
/// edges.
pub open spec fn is_epsilon_free_form(a: AutomatonView, r: AutomatonView) -> bool {
    &&& r.len() == a.len()
    &&& forall|i: int|
        0 <= i < a.len() ==> (#[trigger] r[i]).position == a[i].position && r[i].is_start == a[i].is_start
    &&& forall|i: int|
        0 <= i < a.len() ==> ((#[trigger] r[i]).is_final <==> exists|j: int| #[trigger]
            eps_reaches(a, i, j) && a[j].is_final)
    &&& forall|i: int, e: Edge|
        0 <= i < a.len() ==> (#[trigger] r[i].edges.contains(e) <==> e.symbol != EPSILON && exists|j: int| #[trigger]
            eps_reaches(a, i, j) && a[j].edges.contains(e))
}

/// Every flagged state is reachable from `source` by epsilon edges.
pub open spec fn closure_sound(a: AutomatonView, source: int, flags: Seq<bool>) -> bool {
    forall|j: int| 0 <= j < a.len() && #[trigger] flags[j] ==> eps_reaches(a, source, j)
}

/// Every epsilon edge from a flagged state leads to a flagged state.
pub open spec fn closure_closed(a: AutomatonView, flags: Seq<bool>) -> bool {
    forall|x: int, y: int| 0 <= x < a.len() && flags[x] && #[trigger] has_edge(a, x, EPSILON, y) ==> flags[y]
}

/// A state reaches itself.
pub proof fn lemma_reaches_self(a: AutomatonView, x: int)
    requires
        0 <= x < a.len(),
    ensures
        eps_reaches(a, x, x),
{
    assert(is_eps_path(a, seq![x]));
}

/// What reaches a state reaches what an epsilon edge leads to from there.
pub proof fn lemma_reaches_step(a: AutomatonView, x: int, y: int, z: int)
    requires
        eps_reaches(a, x, y),
        has_edge(a, y, EPSILON, z),
    ensures
        eps_reaches(a, x, z),
{
    let p = choose|p: Seq<int>| #[trigger] is_eps_path(a, p) && p[0] == x && p.last() == y;
    let q = p.push(z);
    assert forall|t: int| 0 <= t < q.len() - 1 implies has_edge(a, #[trigger] q[t], EPSILON, q[t + 1]) by {
        if t < p.len() - 1 {
            assert(has_edge(a, p[t], EPSILON, p[t + 1]));
        }
    }
    assert(is_eps_path(a, q));
}

/// Flags that hold the source and are closed under epsilon edges hold
/// everything the source reaches.
proof fn lemma_closed_holds_path(a: AutomatonView, source: int, flags: Seq<bool>, p: Seq<int>)
    requires
        closure_closed(a, flags),
        flags[source],
        is_eps_path(a, p),
        p[0] == source,
    ensures
        flags[p.last()],
    decreases p.len(),
{
    if p.len() > 1 {
        let q = p.drop_last();
        assert forall|t: int| 0 <= t < q.len() - 1 implies has_edge(a, #[trigger] q[t], EPSILON, q[t + 1]) by {
            assert(has_edge(a, p[t], EPSILON, p[t + 1]));
        }
        assert(is_eps_path(a, q));
        lemma_closed_holds_path(a, source, flags, q);
        assert(has_edge(a, p[p.len() - 2], EPSILON, p[p.len() - 2 + 1]));
    }
}

/// One pass over the flagged states: flags what their epsilon edges lead
/// to, and tells whether it flagged anything new.
fn closure_pass(a: &Automaton, Ghost(source): Ghost<int>, flags: &mut Vec<bool>) -> (changed: bool)
    requires
        a.well_formed(),
        old(flags)@.len() == a@.len(),
        closure_sound(a@, source, old(flags)@),
    ensures
        final(flags)@.len() == a@.len(),
        closure_sound(a@, source, final(flags)@),
        forall|j: int| 0 <= j < a@.len() && old(flags)@[j] ==> final(flags)@[j],
        changed ==> count_true(final(flags)@) > count_true(old(flags)@),
        !changed ==> final(flags)@ == old(flags)@ && closure_closed(a@, final(flags)@),
{
    let n = a.len();
    let ghost av = a@;
    let mut changed = false;
    let mut k: usize = 0;
    while k < n
        invariant
            a.well_formed(),
            av == a@,
            n == av.len(),
            k <= n,
            flags@.len() == n,
            closure_sound(av, source, flags@),
            forall|j: int| 0 <= j < n && old(flags)@[j] ==> flags@[j],
            changed ==> count_true(flags@) > count_true(old(flags)@),
            !changed ==> flags@ == old(flags)@,
            !changed ==> forall|x: int, y: int|
                0 <= x < k && flags@[x] && #[trigger] has_edge(av, x, EPSILON, y) ==> flags@[y],
        decreases n - k,
    {
        if flags[k] {
            let ghost edges = av[k as int].edges;
            assert(av[k as int] == a.states@[k as int]@);
            let mut e: usize = 0;
            while e < a.states[k].connections.len()
                invariant
                    a.well_formed(),
                    av == a@,
                    n == av.len(),
                    k < n,
                    edges == a.states@[k as int].connections@,
                    edges == av[k as int].edges,
                    e <= edges.len(),
                    flags@.len() == n,
                    flags@[k as int],
                    closure_sound(av, source, flags@),
                    forall|j: int| 0 <= j < n && old(flags)@[j] ==> flags@[j],
                    changed ==> count_true(flags@) > count_true(old(flags)@),
                    !changed ==> flags@ == old(flags)@,
                    !changed ==> forall|x: int, y: int|
                        0 <= x < k && flags@[x] && #[trigger] has_edge(av, x, EPSILON, y) ==> flags@[y],
                    !changed ==> forall|idx: int, y: int|
                        0 <= idx < e && 0 <= y < n && #[trigger] edges[idx] == (Edge {
                            symbol: EPSILON,
                            target: (#[trigger] av[y]).position,
                        }) ==> flags@[y],
                decreases edges.len() - e,
            {
                let edge = a.states[k].connections[e];
                let ghost before = flags@;
                if edge.symbol == EPSILON {
                    match a.position_of(edge.target) {
                        Some(t) => {
                            proof {
                                assert(edges.contains(Edge { symbol: EPSILON, target: av[t as int].position })) by {
                                    assert(edges[e as int] == (Edge {
                                        symbol: EPSILON,
                                        target: av[t as int].position,
                                    }));
                                }
                                assert(has_edge(av, k as int, EPSILON, t as int));
                            }
                            if !flags[t] {
                                flags.set(t, true);
                                proof {
                                    lemma_count_true_update(before, t as int);
                                    lemma_reaches_step(av, source, k as int, t as int);
                                    assert forall|j: int| 0 <= j < av.len() && #[trigger] flags@[j] implies eps_reaches(
                                        av,
                                        source,
                                        j,
                                    ) by {
                                        if j != t {
                                            assert(before[j]);
                                        }
                                    }
                                }
                                changed = true;
                            } else {
                                proof {
                                    if !changed {
                                        assert forall|idx: int, y: int|
                                            0 <= idx < e + 1 && 0 <= y < n && #[trigger] edges[idx] == (Edge {
                                                symbol: EPSILON,
                                                target: (#[trigger] av[y]).position,
                                            }) implies flags@[y] by {
                                            if idx == e {
                                                lemma_index_of_unique(av, y);
                                                lemma_index_of_unique(av, t as int);
                                            }
                                        }
                                    }
                                }
                            }
                        },
                        None => {
                            proof {
                                if !changed {
                                    assert forall|idx: int, y: int|
                                        0 <= idx < e + 1 && 0 <= y < n && #[trigger] edges[idx] == (Edge {
                                            symbol: EPSILON,
                                            target: (#[trigger] av[y]).position,
                                        }) implies flags@[y] by {
                                        if idx == e {
                                            assert(has_key(av, av[y].position));
                                        }
                                    }
                                }
                            }
                        },
                    }
                }
                e += 1;
            }
            proof {
                if !changed {
                    assert forall|x: int, y: int|
                        0 <= x < k + 1 && flags@[x] && #[trigger] has_edge(av, x, EPSILON, y) implies flags@[y] by {
                        if x == k {
                            let idx = choose|idx: int|
                                0 <= idx < edges.len() && edges[idx] == (Edge {
                                    symbol: EPSILON,
                                    target: av[y].position,
                                });
                            assert(edges[idx] == (Edge { symbol: EPSILON, target: av[y].position }));
                        }
                    }
                }
            }
        }
        k += 1;
    }
    changed
}

/// The states that `source` reaches by epsilon edges, itself included, as
/// a vector of flags.
pub fn epsilon_closure(a: &Automaton, source: usize) -> (flags: Vec<bool>)
    requires
        a.well_formed(),
        source < a@.len(),
    ensures
        flags@.len() == a@.len(),
        forall|j: int| 0 <= j < a@.len() ==> #[trigger] flags@[j] == eps_reaches(a@, source as int, j),
{
    let n = a.len();
    let none = new_mask(n);
    let mut flags = none;
    let ghost before = flags@;
    flags.set(source, true);
    proof {
        lemma_reaches_self(a@, source as int);
        lemma_count_true_bound(flags@);
    }
    let mut changed = true;
    while changed
        invariant
            a.well_formed(),
            n == a@.len(),
            source < n,
            flags@.len() == n,
            flags@[source as int],
            closure_sound(a@, source as int, flags@),
            count_true(flags@) <= n,
            !changed ==> closure_closed(a@, flags@),
        decreases
            n - count_true(flags@) + if changed {
                1int
            } else {
                0int
            },
    {
        changed = closure_pass(a, Ghost(source as int), &mut flags);
        proof {
            lemma_count_true_bound(flags@);
        }
    }
    proof {
        assert forall|j: int| 0 <= j < a@.len() implies #[trigger] flags@[j] == eps_reaches(a@, source as int, j) by {
            if eps_reaches(a@, source as int, j) {
                let p = choose|p: Seq<int>| #[trigger] is_eps_path(a@, p) && p[0] == source && p.last() == j;
                lemma_closed_holds_path(a@, source as int, flags@, p);
            }
        }
    }
    flags
}

/// Whether `e` is an ordinary edge of one of the first `bound` states that
/// are flagged.
pub open spec fn collected(a: AutomatonView, flags: Seq<bool>, bound: int, e: Edge) -> bool {
    e.symbol != EPSILON && exists|j: int| 0 <= j < bound && flags[j] && (#[trigger] a[j]).edges.contains(e)
}

/// The state `i` with the epsilon edges folded in.
fn fold_epsilon_edges(a: &Automaton, i: usize) -> (s: State)
    requires
        a.well_formed(),
        i < a@.len(),
    ensures
        s.well_formed(),
        s@.position == a@[i as int].position,
        s@.is_start == a@[i as int].is_start,
        s@.is_final <==> exists|j: int| #[trigger] eps_reaches(a@, i as int, j) && a@[j].is_final,
        forall|e: Edge|
            #[trigger] s@.edges.contains(e) <==> e.symbol != EPSILON && exists|j: int| #[trigger]
                eps_reaches(a@, i as int, j) && a@[j].edges.contains(e),
{
    let n = a.len();
    let ghost av = a@;
    let flags = epsilon_closure(a, i);
    let mut connections: Vec<Edge> = Vec::new();
    let mut is_final = false;
    let mut j: usize = 0;
    while j < n
        invariant
            a.well_formed(),
            av == a@,
            n == av.len(),
            j <= n,
            flags@.len() == n,
            edges_distinct(connections@),
            is_final <==> exists|x: int| 0 <= x < j && flags@[x] && (#[trigger] av[x]).is_final,
            forall|e: Edge| #[trigger] connections@.contains(e) <==> collected(av, flags@, j as int, e),
        decreases n - j,
    {
        assert(av[j as int] == a.states@[j as int]@);
        if flags[j] {
            if a.states[j].is_final() {
                is_final = true;
            }
            let ghost edges = av[j as int].edges;
            let mut k: usize = 0;
            while k < a.states[j].connections.len()
                invariant
                    av == a@,
                    n == av.len(),
                    j < n,
                    flags@.len() == n,
                    flags@[j as int],
                    edges == a.states@[j as int].connections@,
                    edges == av[j as int].edges,
                    k <= edges.len(),
                    edges_distinct(connections@),
                    forall|e: Edge|
                        #[trigger] connections@.contains(e) <==> collected(av, flags@, j as int, e) || (e.symbol
                            != EPSILON && edges.subrange(0, k as int).contains(e)),
                decreases edges.len() - k,
            {
                let edge = a.states[j].connections[k];
                let ghost before = connections@;
                let ghost seen = edges.subrange(0, k as int);
                let ghost next = edges.subrange(0, k + 1);
                assert(next == seen.push(edge));
                let add = edge.symbol != EPSILON && !contains_edge(&connections, edge);
                if add {
                    connections.push(edge);
                }
                proof {
                    assert forall|e: Edge|
                        #[trigger] connections@.contains(e) <==> collected(av, flags@, j as int, e) || (e.symbol
                            != EPSILON && next.contains(e)) by {
                        lemma_push_contains(seen, edge, e);
                        if add {
                            lemma_push_contains(before, edge, e);
                        }
                    }
                }
                k += 1;
            }
            proof {
                assert(edges.subrange(0, k as int) == edges);
                assert forall|e: Edge| #[trigger] connections@.contains(e) <==> collected(
                    av,
                    flags@,
                    j + 1,
                    e,
                ) by {
                    if collected(av, flags@, j + 1, e) {
                        let x = choose|x: int| 0 <= x < j + 1 && flags@[x] && (#[trigger] av[x]).edges.contains(e);
                        if x < j {
                            assert(collected(av, flags@, j as int, e));
                        }
                    }
                    if collected(av, flags@, j as int, e) {
                        let x = choose|x: int| 0 <= x < j && flags@[x] && (#[trigger] av[x]).edges.contains(e);
                        assert(0 <= x < j + 1 && flags@[x] && av[x].edges.contains(e));
                    }
                    if e.symbol != EPSILON && edges.contains(e) {
                        assert(flags@[j as int] && av[j as int].edges.contains(e));
                    }
                }
            }
        } else {
            proof {
                assert forall|e: Edge| #[trigger] connections@.contains(e) <==> collected(
                    av,
                    flags@,
                    j + 1,
                    e,
                ) by {
                    if collected(av, flags@, j + 1, e) {
                        let x = choose|x: int| 0 <= x < j + 1 && flags@[x] && (#[trigger] av[x]).edges.contains(e);
                        assert(collected(av, flags@, j as int, e));
                    }
                    if collected(av, flags@, j as int, e) {
                        let x = choose|x: int| 0 <= x < j && flags@[x] && (#[trigger] av[x]).edges.contains(e);
                        assert(0 <= x < j + 1 && flags@[x] && av[x].edges.contains(e));
                    }
                }
            }
        }
        j += 1;
    }
    let s = State {
        position: a.states[i].position,
        connections,
        is_start: a.states[i].is_start,
        is_final,
    };
    proof {
        assert(av[i as int] == a.states@[i as int]@);
        if s@.is_final {
            let x = choose|x: int| 0 <= x < n && flags@[x] && (#[trigger] av[x]).is_final;
            assert(eps_reaches(av, i as int, x) && av[x].is_final);
        }
        if exists|x: int| #[trigger] eps_reaches(av, i as int, x) && av[x].is_final {
            let x = choose|x: int| #[trigger] eps_reaches(av, i as int, x) && av[x].is_final;
            lemma_reaches_in_range(av, i as int, x);
            assert(flags@[x] && av[x].is_final);
        }
        assert forall|e: Edge|
            #[trigger] s@.edges.contains(e) <==> e.symbol != EPSILON && exists|x: int| #[trigger]
                eps_reaches(av, i as int, x) && av[x].edges.contains(e) by {
            if s@.edges.contains(e) {
                assert(collected(av, flags@, n as int, e));
                let x = choose|x: int| 0 <= x < n && flags@[x] && (#[trigger] av[x]).edges.contains(e);
                assert(eps_reaches(av, i as int, x) && av[x].edges.contains(e));
            }
            if e.symbol != EPSILON && exists|x: int| #[trigger]
                eps_reaches(av, i as int, x) && av[x].edges.contains(e) {
                let x = choose|x: int| #[trigger] eps_reaches(av, i as int, x) && av[x].edges.contains(e);
                lemma_reaches_in_range(av, i as int, x);
                assert(flags@[x] && av[x].edges.contains(e));
                assert(collected(av, flags@, n as int, e));
            }
        }
    }
    s
}

/// What is reached by epsilon edges is a state of the automaton, and so is
/// what reaches it.
pub proof fn lemma_reaches_in_range(a: AutomatonView, x: int, y: int)
    requires
        eps_reaches(a, x, y),
    ensures
        0 <= x < a.len(),
        0 <= y < a.len(),
{
    let p = choose|p: Seq<int>| #[trigger] is_eps_path(a, p) && p[0] == x && p.last() == y;
    assert(0 <= p[0] < a.len());
    assert(0 <= p[p.len() - 1] < a.len());
}

/// Folds the epsilon edges of the automaton into ordinary edges and
/// acceptance. In the automaton that comes back, a state is final if it
/// reached a final state by epsilon edges, its edges are the ordinary edges
/// of all the states it reached by epsilon edges, and no epsilon edge is
/// left. The automaton given is left as it is.
pub fn remove_all_epsilon_transitions(a: &Automaton) -> (r: Automaton)
    requires
        a.well_formed(),
        targets_present(a@),
    ensures
        r.well_formed(),
        is_epsilon_free_form(a@, r@),
        epsilon_free(r@),
        targets_present(r@),
{
    let n = a.len();
    let ghost av = a@;
    let mut states: Vec<State> = Vec::new();
    let mut i: usize = 0;
    while i < n
        invariant
            a.well_formed(),
            av == a@,
            n == av.len(),
            i <= n,
            states@.len() == i,
            forall|s: int| 0 <= s < i ==> (#[trigger] states@[s]).well_formed(),
            forall|s: int|
                0 <= s < i ==> (#[trigger] states@[s])@.position == av[s].position && states@[s]@.is_start
                    == av[s].is_start,
            forall|s: int|
                0 <= s < i ==> ((#[trigger] states@[s])@.is_final <==> exists|j: int| #[trigger]
                    eps_reaches(av, s, j) && av[j].is_final),
            forall|s: int, e: Edge|
                0 <= s < i ==> (#[trigger] states@[s]@.edges.contains(e) <==> e.symbol != EPSILON && exists|j: int| #[trigger]
                    eps_reaches(av, s, j) && av[j].edges.contains(e)),
        decreases n - i,
    {
        let s = fold_epsilon_edges(a, i);
        states.push(s);
        i += 1;
    }
    let r = Automaton { states };
    proof {
        let rv = r@;
        assert forall|s: int| 0 <= s < n implies rv[s] == #[trigger] r.states@[s]@ by {}
        assert forall|p: int, q: int| 0 <= p < q < rv.len() implies (#[trigger] rv[p]).position != (
        #[trigger] rv[q]).position by {
            assert(av[p].position != av[q].position);
        }
        assert forall|s: int| 0 <= s < rv.len() implies edges_distinct((#[trigger] rv[s]).edges) by {
            assert(r.states@[s].well_formed());
        }
        assert forall|s: int, e: Edge| 0 <= s < av.len() implies (#[trigger] rv[s].edges.contains(e) <==> e.symbol
            != EPSILON && exists|j: int| #[trigger] eps_reaches(av, s, j) && av[j].edges.contains(e)) by {
            assert(rv[s] == r.states@[s]@);
        }
        assert forall|s: int, k: int| 0 <= s < rv.len() && 0 <= k < rv[s].edges.len() implies (
        #[trigger] rv[s].edges[k]).symbol != EPSILON && has_key(rv, rv[s].edges[k].target) by {
            let e = rv[s].edges[k];
            assert(rv[s].edges.contains(e));
            let j = choose|j: int| #[trigger] eps_reaches(av, s, j) && av[j].edges.contains(e);
            lemma_reaches_in_range(av, s, j);
            let m = choose|m: int| 0 <= m < av[j].edges.len() && av[j].edges[m] == e;
            assert(has_key(av, av[j].edges[m].target));
            let t = index_of(av, e.target);
            assert(rv[t].position == e.target);
        }
    }
    r
}

/// Folding in the epsilon edges preserves the language: what comes back
/// accepts, from every state, exactly the strings without the epsilon
/// symbol that the automaton accepted.
pub proof fn lemma_epsilon_free_form_accepts(a: AutomatonView, r: AutomatonView, i: int, input: Seq<char>)
    requires
        is_epsilon_free_form(a, r),
        epsilon_free(r),
        !input.contains(EPSILON),
    ensures
        nfa_accepts_from(r, i, input) == nfa_accepts_from(a, i, input),
    decreases input.len(),
{
    if 0 <= i < a.len() {
        lemma_reaches_self(r, i);
        lemma_reaches_self(a, i);
        // Without epsilon edges a state reaches only itself.
        assert forall|j: int| #[trigger] eps_reaches(r, i, j) implies j == i by {
            lemma_epsilon_free_reaches(r, i, j);
        }
        if input.len() == 0 {
            if nfa_accepts_from(r, i, input) {
                let j = choose|j: int| #[trigger] eps_reaches(r, i, j) && succeeds_at(r, j, input);
                let x = choose|x: int| #[trigger] eps_reaches(a, i, x) && a[x].is_final;
                assert(succeeds_at(a, x, input));
            }
            if nfa_accepts_from(a, i, input) {
                let x = choose|x: int| #[trigger] eps_reaches(a, i, x) && succeeds_at(a, x, input);
                assert(r[i].is_final);
                assert(succeeds_at(r, i, input));
            }
        } else {
            let c = input[0];
            let rest = input.drop_first();
            assert(input.contains(c));
            assert(!rest.contains(EPSILON)) by {
                if rest.contains(EPSILON) {
                    let p = choose|p: int| 0 <= p < rest.len() && rest[p] == EPSILON;
                    assert(input[p + 1] == EPSILON);
                }
            }
            if nfa_accepts_from(r, i, input) {
                let j = choose|j: int| #[trigger] eps_reaches(r, i, j) && succeeds_at(r, j, input);
                let k = choose|k: int| #[trigger] has_edge(r, i, c, k) && nfa_accepts_from(r, k, rest);
                lemma_epsilon_free_form_accepts(a, r, k, rest);
                let e = Edge { symbol: c, target: r[k].position };
                assert(r[i].edges.contains(e));
                let x = choose|x: int| #[trigger] eps_reaches(a, i, x) && a[x].edges.contains(e);
                lemma_reaches_in_range(a, i, x);
                assert(has_edge(a, x, c, k));
                assert(succeeds_at(a, x, input));
            }
            if nfa_accepts_from(a, i, input) {
                let x = choose|x: int| #[trigger] eps_reaches(a, i, x) && succeeds_at(a, x, input);
                let k = choose|k: int| #[trigger] has_edge(a, x, c, k) && nfa_accepts_from(a, k, rest);
                lemma_epsilon_free_form_accepts(a, r, k, rest);
                let e = Edge { symbol: c, target: a[k].position };
                assert(r[i].edges.contains(e));
                assert(has_edge(r, i, c, k));
                assert(succeeds_at(r, i, input));
            }
        }
    } else {
        if nfa_accepts_from(r, i, input) {
            let j = choose|j: int| #[trigger] eps_reaches(r, i, j) && succeeds_at(r, j, input);
            lemma_reaches_in_range(r, i, j);
        }
        if nfa_accepts_from(a, i, input) {
            let j = choose|j: int| #[trigger] eps_reaches(a, i, j) && succeeds_at(a, j, input);
            lemma_reaches_in_range(a, i, j);
        }
    }
}

/// Without epsilon edges a state reaches only itself.
pub proof fn lemma_epsilon_free_reaches(a: AutomatonView, x: int, y: int)
    requires
        epsilon_free(a),
        eps_reaches(a, x, y),
    ensures
        x == y,
{
    let p = choose|p: Seq<int>| #[trigger] is_eps_path(a, p) && p[0] == x && p.last() == y;
    if p.len() > 1 {
        assert(has_edge(a, p[0int], EPSILON, p[0int + 1]));
        let e = Edge { symbol: EPSILON, target: a[p[1]].position };
        let m = choose|m: int| 0 <= m < a[p[0]].edges.len() && a[p[0]].edges[m] == e;
        assert(a[p[0]].edges[m].symbol != EPSILON);
    }
}

/// Folding in the epsilon edges preserves the language: from the same
/// start state the two automata accept the same strings, as long as the
/// strings do not hold the epsilon symbol itself.
pub proof fn law_epsilon_elimination_preserves_language(
    a: AutomatonView,
    r: AutomatonView,
    start: crate::coordinate::Coordinate,
    input: Seq<char>,
)
    requires
        keys_distinct(a),
        is_epsilon_free_form(a, r),
        epsilon_free(r),
        !input.contains(EPSILON),
    ensures
        nfa_accepts(r, start, input) == nfa_accepts(a, start, input),
{
    if has_key(a, start) {
        let i = index_of(a, start);
        assert(r[i].position == start);
        assert forall|p: int, q: int| 0 <= p < q < r.len() implies (#[trigger] r[p]).position != (
        #[trigger] r[q]).position by {
            assert(a[p].position != a[q].position);
        }
        lemma_index_of_unique(r, i);
        lemma_epsilon_free_form_accepts(a, r, i, input);
    } else if has_key(r, start) {
        let i = index_of(r, start);
        assert(a[i].position == start);
    }
}

} // verus!
