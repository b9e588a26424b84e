//! What the subset construction does to an automaton that is deterministic
//! already: it gives the states new names, and changes nothing else.

use crate::automaton::{
    first_target, has_key, index_of, lemma_first_target_is_some, lemma_index_of_unique, targets_present,
    well_formed, AutomatonView, Edge, EPSILON,
};
use crate::coordinate::Coordinate;
use crate::determinization::{
    expanded, holds_final, is_empty_mask, is_generated, is_subset_construction, move_mask, moved_below,
};
use crate::epsilon::{epsilon_free, is_epsilon_free_form, lemma_epsilon_free_reaches, lemma_reaches_self};
use crate::masks::lemma_pigeonhole;
use crate::nfa_simulation::eps_reaches;
use crate::minimization_laws::{lemma_strict_step, strict_dfa};
use crate::nfa_simulation::has_edge;
use crate::simulation::dfa_step;
use crate::validation::{edges_fit_alphabet, has_only_edge_on, is_only_edge_on};
use vstd::prelude::*;

verus! {

/// Whether state `x` is reached from state `start` by `n` steps.
pub open spec fn reached_in(a: AutomatonView, start: int, x: int, n: nat) -> bool
    decreases n,
{
    if n == 0 {
        x == start
    } else {
        exists|y: int, symbol: char|
            0 <= y < a.len() && reached_in(a, start, y, (n - 1) as nat) && #[trigger] dfa_step(a, y, symbol)
                == Some(x)
    }
}

/// Whether every state is reached from state `start`.
pub open spec fn all_reached(a: AutomatonView, start: int) -> bool {
    forall|x: int| 0 <= x < a.len() ==> #[trigger] is_reached(a, start, x)
}

/// Whether state `x` is reached from state `start` by some number of
/// steps.
pub open spec fn is_reached(a: AutomatonView, start: int, x: int) -> bool {
    exists|n: nat| #[trigger] reached_in(a, start, x, n)
}

/// The set that holds the one state `x`, of `n` states.
pub open spec fn only(n: nat, x: int) -> Seq<bool> {
    Seq::new(n, |i: int| i == x)
}

/// Whether `names` renames the states of `a` into those of `d`: every
/// state of `d` is the new name of exactly one state of `a`, a state is
/// final if the state it renames is, and a step in `d` is the renamed
/// step in `a`.
pub open spec fn is_renaming(a: AutomatonView, d: AutomatonView, names: Seq<int>) -> bool {
    &&& names.len() == a.len()
    &&& d.len() == a.len()
    &&& forall|x: int| 0 <= x < a.len() ==> 0 <= #[trigger] names[x] < d.len()
    &&& forall|x: int, y: int| 0 <= x < y < a.len() ==> #[trigger] names[x] != #[trigger] names[y]
    &&& forall|x: int| 0 <= x < a.len() ==> d[#[trigger] names[x]].is_final == a[x].is_final
    &&& forall|x: int, symbol: char|
        0 <= x < a.len() ==> #[trigger] dfa_step(d, names[x], symbol) == match dfa_step(a, x, symbol) {
            Some(y) => Some(names[y]),
            None => None,
        }
}

/// In a strict deterministic automaton the states that one state reaches
/// by a symbol are the one state its step leads to, or none.
proof fn lemma_move_of_one(a: AutomatonView, alphabet: Seq<char>, x: int, symbol: char)
    requires
        strict_dfa(a, alphabet),
        0 <= x < a.len(),
    ensures
        match dfa_step(a, x, symbol) {
            Some(y) => 0 <= y < a.len() && move_mask(a, only(a.len(), x), symbol) == only(a.len(), y),
            None => is_empty_mask(move_mask(a, only(a.len(), x), symbol)),
        },
{
    let n = a.len();
    let members = only(n, x);
    let reached = move_mask(a, members, symbol);
    lemma_strict_step(a, alphabet, x, symbol);
    let edges = a[x].edges;
    assert(edges_fit_alphabet(edges, alphabet));
    lemma_first_target_is_some(edges, symbol);
    match dfa_step(a, x, symbol) {
        Some(y) => {
            let k = choose|k: int| 0 <= k < alphabet.len() && alphabet[k] == symbol;
            assert(has_only_edge_on(edges, alphabet[k]));
            let only_edge = choose|e: int| is_only_edge_on(edges, symbol, e);
            let m = choose|m: int|
                0 <= m < edges.len() && (#[trigger] edges[m]).symbol == symbol && edges[m].target == first_target(
                    edges,
                    symbol,
                )->0;
            if m != only_edge {
                assert(edges[m].symbol != symbol);
            }
            assert(a[y].position == edges[only_edge].target);
            assert forall|z: int| 0 <= z < n implies reached[z] == (z == y) by {
                if reached[z] {
                    let w = choose|w: int| 0 <= w < n && members[w] && #[trigger] has_edge(a, w, symbol, z);
                    assert(w == x);
                    let e = Edge { symbol, target: a[z].position };
                    let p = choose|p: int| 0 <= p < edges.len() && edges[p] == e;
                    if p != only_edge {
                        assert(edges[p].symbol != symbol);
                    }
                    lemma_index_of_unique(a, z);
                    lemma_index_of_unique(a, y);
                }
                if z == y {
                    assert(edges[only_edge] == (Edge { symbol, target: a[y].position }));
                    assert(edges.contains(Edge { symbol, target: a[y].position }));
                    assert(members[x] && has_edge(a, x, symbol, y));
                    assert(moved_below(a, members, symbol, n as int, y));
                }
            }
            assert(reached =~= only(n, y));
        },
        None => {
            assert forall|z: int| 0 <= z < reached.len() implies !reached[z] by {
                if reached[z] {
                    let w = choose|w: int| 0 <= w < n && members[w] && #[trigger] has_edge(a, w, symbol, z);
                    let e = Edge { symbol, target: a[z].position };
                    let p = choose|p: int| 0 <= p < edges.len() && edges[p] == e;
                    assert(alphabet.contains(edges[p].symbol));
                }
            }
        },
    }
}

/// Every state of a subset construction of a strict deterministic
/// automaton stands for a single state.
proof fn lemma_sets_are_single(
    a: AutomatonView,
    alphabet: Seq<char>,
    start: Coordinate,
    d: AutomatonView,
    sets: Seq<Seq<bool>>,
    t: int,
) -> (x: int)
    requires
        strict_dfa(a, alphabet),
        is_subset_construction(a, start, d, sets),
        0 <= t < d.len(),
    ensures
        0 <= x < a.len(),
        sets[t] == only(a.len(), x),
    decreases t,
{
    if t == 0 {
        let x = index_of(a, start);
        assert(sets[0] =~= only(a.len(), x));
        x
    } else {
        assert(is_generated(a, sets, t));
        let (s, symbol) = choose|s: int, symbol: char|
            0 <= s < t && sets[t] == #[trigger] move_mask(a, sets[s], symbol) && !is_empty_mask(sets[t]);
        let y = lemma_sets_are_single(a, alphabet, start, d, sets, s);
        lemma_move_of_one(a, alphabet, y, symbol);
        dfa_step(a, y, symbol)->0
    }
}

/// Every state that is reached from the start state has a state of the
/// subset construction that stands for it alone.
proof fn lemma_reached_has_name(
    a: AutomatonView,
    alphabet: Seq<char>,
    start: Coordinate,
    d: AutomatonView,
    sets: Seq<Seq<bool>>,
    x: int,
    n: nat,
) -> (t: int)
    requires
        strict_dfa(a, alphabet),
        is_subset_construction(a, start, d, sets),
        0 <= x < a.len(),
        reached_in(a, index_of(a, start), x, n),
    ensures
        0 <= t < d.len(),
        sets[t] == only(a.len(), x),
    decreases n,
{
    if n == 0 {
        assert(sets[0] =~= only(a.len(), x));
        0
    } else {
        let (y, symbol) = choose|y: int, symbol: char|
            0 <= y < a.len() && reached_in(a, index_of(a, start), y, (n - 1) as nat) && #[trigger] dfa_step(
                a,
                y,
                symbol,
            ) == Some(x);
        let s = lemma_reached_has_name(a, alphabet, start, d, sets, y, (n - 1) as nat);
        lemma_move_of_one(a, alphabet, y, symbol);
        assert(expanded(a, d, sets, s));
        let reached = move_mask(a, sets[s], symbol);
        assert(reached == only(a.len(), x));
        assert(reached[x]);
        let t = choose|t: int|
            0 <= t < d.len() && first_target(d[s].edges, symbol) == Some((#[trigger] d[t]).position) && sets[t]
                == reached;
        t
    }
}

/// The new name of state `x`: the state of the subset construction that
/// stands for it alone.
pub open spec fn name_of(a: AutomatonView, sets: Seq<Seq<bool>>, x: int) -> int {
    choose|t: int| 0 <= t < sets.len() && #[trigger] sets[t] == only(a.len(), x)
}

/// A structurally valid deterministic automaton is unchanged by the
/// subset construction, up to the names of its states: where every state
/// is reached from the start state, the construction has as many states,
/// and they are the states of the automaton under new names, with the
/// same final states and the same steps.
pub proof fn law_subset_construction_renames_dfa(
    a: AutomatonView,
    alphabet: Seq<char>,
    start: Coordinate,
    d: AutomatonView,
    sets: Seq<Seq<bool>>,
)
    requires
        strict_dfa(a, alphabet),
        is_subset_construction(a, start, d, sets),
        all_reached(a, index_of(a, start)),
    ensures
        is_renaming(a, d, Seq::new(a.len(), |x: int| name_of(a, sets, x))),
        name_of(a, sets, index_of(a, start)) == 0,
{
    let n = a.len();
    let names = Seq::new(n, |x: int| name_of(a, sets, x));
    let s0 = index_of(a, start);
    assert forall|x: int| 0 <= x < n implies 0 <= #[trigger] names[x] < d.len() && sets[names[x]] == only(n, x) by {
        assert(is_reached(a, s0, x));
        let steps = choose|steps: nat| #[trigger] reached_in(a, s0, x, steps);
        let t = lemma_reached_has_name(a, alphabet, start, d, sets, x, steps);
        assert(0 <= t < sets.len() && sets[t] == only(n, x));
    }
    assert forall|x: int, y: int| 0 <= x < n && 0 <= y < n && x != y implies names[x] != names[y] by {
        if names[x] == names[y] {
            assert(sets[names[x]] == only(n, x));
            assert(sets[names[y]] == only(n, y));
            assert(only(n, x)[x]);
            assert(!only(n, y)[x]);
        }
    }
    // As many states: each side fits into the other.
    let positions_d = Seq::new(d.len(), |i: int| i);
    assert(names.no_duplicates());
    assert forall|i: int| 0 <= i < names.len() implies positions_d.contains(#[trigger] names[i]) by {
        assert(positions_d[names[i]] == names[i]);
    }
    lemma_pigeonhole(names, positions_d);
    let origins = Seq::new(d.len(), |t: int| origin_of(a, sets, t));
    let positions_a = Seq::new(n, |i: int| i);
    assert forall|t: int| 0 <= t < d.len() implies 0 <= #[trigger] origins[t] < n && sets[t] == only(
        n,
        origins[t],
    ) by {
        let x = lemma_sets_are_single(a, alphabet, start, d, sets, t);
        assert(0 <= x < n && sets[t] == only(n, x));
    }
    assert forall|s: int, t: int| 0 <= s < origins.len() && 0 <= t < origins.len() && s != t implies origins[s]
        != origins[t] by {
        if origins[s] == origins[t] {
            if s < t {
                assert(sets[s] != sets[t]);
            } else {
                assert(sets[t] != sets[s]);
            }
        }
    }
    assert forall|i: int| 0 <= i < origins.len() implies positions_a.contains(#[trigger] origins[i]) by {
        assert(positions_a[origins[i]] == origins[i]);
    }
    lemma_pigeonhole(origins, positions_a);
    assert(d.len() == n);
    assert forall|x: int| 0 <= x < n implies d[#[trigger] names[x]].is_final == a[x].is_final by {
        let t = names[x];
        assert(sets[t] == only(n, x));
        assert(d[t].is_final <==> holds_final(a, sets[t]));
        if holds_final(a, sets[t]) {
            let m = choose|m: int| 0 <= m < a.len() && sets[t][m] && (#[trigger] a[m]).is_final;
            assert(m == x);
        }
        if a[x].is_final {
            assert(sets[t][x] && a[x].is_final);
        }
    }
    assert forall|x: int, symbol: char| 0 <= x < n implies #[trigger] dfa_step(d, names[x], symbol) == match dfa_step(
        a,
        x,
        symbol,
    ) {
        Some(y) => Some(names[y]),
        None => None,
    } by {
        let t = names[x];
        assert(sets[t] == only(n, x));
        lemma_move_of_one(a, alphabet, x, symbol);
        assert(expanded(a, d, sets, t));
        let reached = move_mask(a, sets[t], symbol);
        match dfa_step(a, x, symbol) {
            Some(y) => {
                assert(reached == only(n, y));
                assert(reached[y]);
                let u = choose|u: int|
                    0 <= u < d.len() && first_target(d[t].edges, symbol) == Some((#[trigger] d[u]).position)
                        && sets[u] == reached;
                lemma_index_of_unique(d, u);
                let v = names[y];
                assert(sets[v] == only(n, y));
                if u < v {
                    assert(sets[u] != sets[v]);
                } else if v < u {
                    assert(sets[v] != sets[u]);
                }
            },
            None => {},
        }
    }
    assert(sets[0] =~= only(n, s0));
    let z = names[s0];
    assert(sets[z] == only(n, s0));
    if 0 < z {
        assert(sets[0] != sets[z]);
    }
}

/// Folding the epsilon edges of a strict deterministic automaton without
/// epsilon edges leaves a strict deterministic automaton with the same
/// final states and the same steps.
pub proof fn lemma_folding_keeps_dfa(a: AutomatonView, alphabet: Seq<char>, folded: AutomatonView)
    requires
        strict_dfa(a, alphabet),
        epsilon_free(a),
        is_epsilon_free_form(a, folded),
        well_formed(folded),
        targets_present(folded),
    ensures
        strict_dfa(folded, alphabet),
        forall|x: int| 0 <= x < a.len() ==> (#[trigger] folded[x]).is_final == a[x].is_final,
        forall|x: int, symbol: char|
            0 <= x < a.len() ==> #[trigger] dfa_step(folded, x, symbol) == dfa_step(a, x, symbol),
        forall|key: Coordinate| #[trigger] has_key(a, key) ==> has_key(folded, key) && index_of(folded, key) == index_of(a, key),
{
    assert forall|x: int, e: Edge| 0 <= x < a.len() implies (#[trigger] folded[x].edges.contains(e)
        <==> a[x].edges.contains(e)) by {
        lemma_reaches_self(a, x);
        if folded[x].edges.contains(e) {
            let j = choose|j: int| #[trigger] eps_reaches(a, x, j) && a[j].edges.contains(e);
            lemma_epsilon_free_reaches(a, x, j);
        }
        if a[x].edges.contains(e) {
            let m = choose|m: int| 0 <= m < a[x].edges.len() && a[x].edges[m] == e;
            assert(a[x].edges[m].symbol != EPSILON);
            assert(eps_reaches(a, x, x) && a[x].edges.contains(e));
        }
    }
    assert forall|x: int| 0 <= x < a.len() implies (#[trigger] folded[x]).is_final == a[x].is_final by {
        lemma_reaches_self(a, x);
        if folded[x].is_final {
            let j = choose|j: int| #[trigger] eps_reaches(a, x, j) && a[j].is_final;
            lemma_epsilon_free_reaches(a, x, j);
        }
        if a[x].is_final {
            assert(eps_reaches(a, x, x) && a[x].is_final);
        }
    }
    assert forall|key: Coordinate| #[trigger] has_key(a, key) implies has_key(folded, key) && index_of(folded, key)
        == index_of(a, key) by {
        let i = index_of(a, key);
        assert(folded[i].position == key);
        lemma_index_of_unique(folded, i);
    }
    assert forall|x: int| 0 <= x < folded.len() implies edges_fit_alphabet(
        (#[trigger] folded[x]).edges,
        alphabet,
    ) by {
        let mine = folded[x].edges;
        let theirs = a[x].edges;
        assert(edges_fit_alphabet(theirs, alphabet));
        assert forall|k: int| 0 <= k < alphabet.len() implies has_only_edge_on(mine, #[trigger] alphabet[k]) by {
            assert(has_only_edge_on(theirs, alphabet[k]));
            let only_edge = choose|i: int| is_only_edge_on(theirs, alphabet[k], i);
            let e = theirs[only_edge];
            assert(theirs.contains(e));
            assert(folded[x].edges.contains(e));
            let q = choose|q: int| 0 <= q < mine.len() && mine[q] == e;
            assert forall|j: int| 0 <= j < mine.len() && j != q implies (#[trigger] mine[j]).symbol
                != alphabet[k] by {
                if mine[j].symbol == alphabet[k] {
                    assert(folded[x].edges.contains(mine[j]));
                    let p = choose|p: int| 0 <= p < theirs.len() && theirs[p] == mine[j];
                    if p != only_edge {
                        assert(theirs[p].symbol != alphabet[k]);
                    }
                    if j < q {
                        assert(mine[j] != mine[q]);
                    } else {
                        assert(mine[q] != mine[j]);
                    }
                }
            }
            assert(is_only_edge_on(mine, alphabet[k], q));
        }
        assert forall|i: int| 0 <= i < mine.len() implies alphabet.contains((#[trigger] mine[i]).symbol) by {
            assert(folded[x].edges.contains(mine[i]));
            let p = choose|p: int| 0 <= p < theirs.len() && theirs[p] == mine[i];
            assert(alphabet.contains(theirs[p].symbol));
        }
    }
    assert(strict_dfa(folded, alphabet));
    assert forall|x: int, symbol: char| 0 <= x < a.len() implies #[trigger] dfa_step(folded, x, symbol)
        == dfa_step(a, x, symbol) by {
        lemma_strict_step(a, alphabet, x, symbol);
        lemma_strict_step(folded, alphabet, x, symbol);
        if alphabet.contains(symbol) {
            let mine = folded[x].edges;
            let theirs = a[x].edges;
            lemma_first_target_is_some(mine, symbol);
            lemma_first_target_is_some(theirs, symbol);
            let m = choose|m: int|
                0 <= m < mine.len() && (#[trigger] mine[m]).symbol == symbol && mine[m].target == first_target(
                    mine,
                    symbol,
                )->0;
            let t = choose|t: int|
                0 <= t < theirs.len() && (#[trigger] theirs[t]).symbol == symbol && theirs[t].target
                    == first_target(theirs, symbol)->0;
            assert(folded[x].edges.contains(mine[m]));
            let p = choose|p: int| 0 <= p < theirs.len() && theirs[p] == mine[m];
            assert(edges_fit_alphabet(theirs, alphabet));
            let k = choose|k: int| 0 <= k < alphabet.len() && alphabet[k] == symbol;
            assert(has_only_edge_on(theirs, alphabet[k]));
            let only_edge = choose|i: int| is_only_edge_on(theirs, symbol, i);
            if p != only_edge {
                assert(theirs[p].symbol != symbol);
            }
            if t != only_edge {
                assert(theirs[t].symbol != symbol);
            }
            let target = theirs[only_edge].target;
            assert(has_key(a, a[x].edges[only_edge].target));
        }
    }
}

/// What is reached in an automaton is reached in one with the same steps.
proof fn lemma_reached_with_same_steps(a: AutomatonView, b: AutomatonView, start: int, x: int, n: nat)
    requires
        a.len() == b.len(),
        forall|y: int, symbol: char| 0 <= y < a.len() ==> #[trigger] dfa_step(b, y, symbol) == dfa_step(a, y, symbol),
        reached_in(a, start, x, n),
    ensures
        reached_in(b, start, x, n),
    decreases n,
{
    if n > 0 {
        let (y, symbol) = choose|y: int, symbol: char|
            0 <= y < a.len() && reached_in(a, start, y, (n - 1) as nat) && #[trigger] dfa_step(a, y, symbol)
                == Some(x);
        lemma_reached_with_same_steps(a, b, start, y, (n - 1) as nat);
        assert(dfa_step(b, y, symbol) == Some(x));
    }
}

/// A structurally valid deterministic automaton without epsilon edges is
/// unchanged by being made deterministic, up to the names of its states:
/// where every state is reached from the start state, the result has as
/// many states, and they are the states of the automaton under new names,
/// with the same final states and the same steps, the start state first.
pub proof fn law_determinization_renames_dfa(
    a: AutomatonView,
    alphabet: Seq<char>,
    start: Coordinate,
    folded: AutomatonView,
    d: AutomatonView,
    sets: Seq<Seq<bool>>,
)
    requires
        strict_dfa(a, alphabet),
        epsilon_free(a),
        has_key(a, start),
        all_reached(a, index_of(a, start)),
        is_epsilon_free_form(a, folded),
        well_formed(folded),
        targets_present(folded),
        is_subset_construction(folded, start, d, sets),
    ensures
        is_renaming(a, d, Seq::new(a.len(), |x: int| name_of(folded, sets, x))),
        name_of(folded, sets, index_of(a, start)) == 0,
{
    lemma_folding_keeps_dfa(a, alphabet, folded);
    let s0 = index_of(a, start);
    assert(index_of(folded, start) == s0);
    assert forall|x: int| 0 <= x < folded.len() implies #[trigger] is_reached(folded, s0, x) by {
        assert(is_reached(a, s0, x));
        let n = choose|n: nat| #[trigger] reached_in(a, s0, x, n);
        lemma_reached_with_same_steps(a, folded, s0, x, n);
    }
    law_subset_construction_renames_dfa(folded, alphabet, start, d, sets);
    let names = Seq::new(a.len(), |x: int| name_of(folded, sets, x));
    let folded_names = Seq::new(folded.len(), |x: int| name_of(folded, sets, x));
    assert(names =~= folded_names);
    assert forall|x: int, symbol: char| 0 <= x < a.len() implies #[trigger] dfa_step(d, names[x], symbol)
        == match dfa_step(a, x, symbol) {
        Some(y) => Some(names[y]),
        None => None,
    } by {
        assert(dfa_step(folded, x, symbol) == dfa_step(a, x, symbol));
        assert(dfa_step(d, folded_names[x], symbol) == match dfa_step(folded, x, symbol) {
            Some(y) => Some(folded_names[y]),
            None => None,
        });
    }
    assert forall|x: int| 0 <= x < a.len() implies d[#[trigger] names[x]].is_final == a[x].is_final by {
        assert(d[folded_names[x]].is_final == folded[x].is_final);
    }
}

/// The state that a state of the subset construction stands for, where it
/// stands for one alone.
pub open spec fn origin_of(a: AutomatonView, sets: Seq<Seq<bool>>, t: int) -> int {
    choose|x: int| 0 <= x < a.len() && sets[t] == only(a.len(), x)
}

} // verus!
