//! What minimization guarantees for strict deterministic automata: the
//! language stays, the result is minimal, and minimizing again changes
//! nothing.

use crate::automaton::{
    edges_distinct, first_occurrences, first_target, has_key, index_of, keys_distinct, lemma_first_target_is_some,
    lemma_index_of_unique, lemma_no_first_target, targets_present, well_formed, AutomatonView, Edge,
};
use crate::coordinate::Coordinate;
use crate::minimization::{
    distinguishable, is_kept, is_minimal, is_representative_of, kept_below, lemma_is_kept_elim,
    lemma_is_kept_intro, lemma_representative_unique, merged_state, minimized, redirected_edges, representative,
    representative_key, told_apart_by,
};
use crate::simulation::{dfa_accepts, dfa_accepts_from, dfa_step};
use crate::validation::{edges_fit_alphabet, has_only_edge_on, is_only_edge_on, structurally_valid_dfa};
use vstd::prelude::*;

verus! {

/// What the laws of minimization ask of an automaton: it is well formed, a
/// strict deterministic automaton over the alphabet, and every edge leads
/// to a state that is present.
pub open spec fn strict_dfa(a: AutomatonView, alphabet: Seq<char>) -> bool {
    &&& well_formed(a)
    &&& structurally_valid_dfa(a, alphabet)
    &&& targets_present(a)
}

/// In a strict deterministic automaton a walk moves on exactly on the
/// symbols of the alphabet.
pub proof fn lemma_strict_step(a: AutomatonView, alphabet: Seq<char>, i: int, symbol: char)
    requires
        strict_dfa(a, alphabet),
        0 <= i < a.len(),
    ensures
        alphabet.contains(symbol) <==> dfa_step(a, i, symbol) is Some,
        dfa_step(a, i, symbol) is Some ==> 0 <= dfa_step(a, i, symbol)->0 < a.len(),
{
    let edges = a[i].edges;
    assert(edges_fit_alphabet(edges, alphabet));
    lemma_first_target_is_some(edges, symbol);
    if alphabet.contains(symbol) {
        let k = choose|k: int| 0 <= k < alphabet.len() && alphabet[k] == symbol;
        assert(has_only_edge_on(edges, alphabet[k]));
        let e = choose|e: int| is_only_edge_on(edges, symbol, e);
        assert(edges[e].symbol == symbol);
        let m = choose|m: int|
            0 <= m < edges.len() && (#[trigger] edges[m]).symbol == symbol && edges[m].target == first_target(
                edges,
                symbol,
            )->0;
        assert(has_key(a, a[i].edges[m].target));
    } else {
        assert forall|j: int| 0 <= j < edges.len() implies (#[trigger] edges[j]).symbol != symbol by {
            assert(alphabet.contains(edges[j].symbol));
        }
        lemma_no_first_target(edges, symbol);
    }
}

/// A string that tells two states apart is accepted from exactly one of
/// them.
pub proof fn lemma_told_apart_differ(a: AutomatonView, alphabet: Seq<char>, i: int, j: int, w: Seq<char>)
    requires
        told_apart_by(a, alphabet, i, j, w),
    ensures
        dfa_accepts_from(a, i, w) != dfa_accepts_from(a, j, w),
    decreases w.len(),
{
    if w.len() > 0 {
        lemma_told_apart_differ(
            a,
            alphabet,
            dfa_step(a, i, w[0])->0,
            dfa_step(a, j, w[0])->0,
            w.drop_first(),
        );
    }
}

/// In a strict deterministic automaton, a string that is accepted from
/// exactly one of two states tells them apart.
pub proof fn lemma_differ_told_apart(a: AutomatonView, alphabet: Seq<char>, i: int, j: int, w: Seq<char>)
    requires
        strict_dfa(a, alphabet),
        0 <= i < a.len(),
        0 <= j < a.len(),
        dfa_accepts_from(a, i, w) != dfa_accepts_from(a, j, w),
    ensures
        told_apart_by(a, alphabet, i, j, w),
    decreases w.len(),
{
    if w.len() > 0 {
        lemma_strict_step(a, alphabet, i, w[0]);
        lemma_strict_step(a, alphabet, j, w[0]);
        if alphabet.contains(w[0]) {
            lemma_differ_told_apart(
                a,
                alphabet,
                dfa_step(a, i, w[0])->0,
                dfa_step(a, j, w[0])->0,
                w.drop_first(),
            );
        }
    }
}

/// In a strict deterministic automaton, states that cannot be told apart
/// accept the same strings.
pub proof fn lemma_indistinguishable_same_language(
    a: AutomatonView,
    alphabet: Seq<char>,
    i: int,
    j: int,
    w: Seq<char>,
)
    requires
        strict_dfa(a, alphabet),
        0 <= i < a.len(),
        0 <= j < a.len(),
        i == j || !distinguishable(a, alphabet, i, j),
    ensures
        dfa_accepts_from(a, i, w) == dfa_accepts_from(a, j, w),
{
    if i != j && dfa_accepts_from(a, i, w) != dfa_accepts_from(a, j, w) {
        lemma_differ_told_apart(a, alphabet, i, j, w);
    }
}

/// Looking for the representative of `q` among the states before `b`
/// either finds it, or shows that every survivor so far can be told apart
/// from `q`.
proof fn lemma_representative_search(a: AutomatonView, alphabet: Seq<char>, q: int, b: int)
    requires
        0 <= b <= q,
    ensures
        (exists|p: int| is_representative_of(a, alphabet, p, q)) || (forall|r: int|
            0 <= r < b && #[trigger] is_kept(a, alphabet, r) ==> distinguishable(a, alphabet, r, q)),
    decreases b,
{
    if b > 0 {
        lemma_representative_search(a, alphabet, q, b - 1);
        if !(exists|p: int| is_representative_of(a, alphabet, p, q)) {
            if is_kept(a, alphabet, b - 1) && !distinguishable(a, alphabet, b - 1, q) {
                assert(is_representative_of(a, alphabet, b - 1, q));
            }
        }
    }
}

/// Every state has a representative.
pub proof fn lemma_representative_exists(a: AutomatonView, alphabet: Seq<char>, q: int)
    requires
        0 <= q,
    ensures
        is_representative_of(a, alphabet, representative(a, alphabet, q), q),
{
    lemma_representative_search(a, alphabet, q, q);
    if !(exists|p: int| is_representative_of(a, alphabet, p, q)) {
        lemma_is_kept_intro(a, alphabet, q);
        assert(is_representative_of(a, alphabet, q, q));
    }
}

/// The survivors among the first `n` states are listed in increasing order,
/// and every one of them is listed.
pub proof fn lemma_kept_below(a: AutomatonView, alphabet: Seq<char>, n: int)
    requires
        0 <= n,
    ensures
        kept_below(a, alphabet, n).len() <= n,
        forall|i: int|
            0 <= i < kept_below(a, alphabet, n).len() ==> 0 <= #[trigger] kept_below(a, alphabet, n)[i] < n
                && is_kept(a, alphabet, kept_below(a, alphabet, n)[i]),
        forall|i: int, j: int|
            0 <= i < j < kept_below(a, alphabet, n).len() ==> kept_below(a, alphabet, n)[i] < kept_below(
                a,
                alphabet,
                n,
            )[j],
        forall|p: int|
            0 <= p < n && #[trigger] is_kept(a, alphabet, p) ==> kept_below(a, alphabet, n).contains(p),
    decreases n,
{
    if n > 0 {
        lemma_kept_below(a, alphabet, n - 1);
        let front = kept_below(a, alphabet, n - 1);
        let all = kept_below(a, alphabet, n);
        assert forall|p: int| 0 <= p < n && #[trigger] is_kept(a, alphabet, p) implies all.contains(p) by {
            if p < n - 1 {
                assert(front.contains(p));
                let i = choose|i: int| 0 <= i < front.len() && front[i] == p;
                assert(all[i] == p);
            } else {
                assert(all[all.len() - 1] == p);
            }
        }
    }
}

/// The position of the survivor `p` in the minimized automaton.
pub open spec fn slot(a: AutomatonView, alphabet: Seq<char>, p: int) -> int {
    index_of(minimized(a, alphabet), a[p].position)
}

/// The minimized automaton holds exactly the survivors, each under the key
/// it had.
pub proof fn lemma_minimized_states(a: AutomatonView, alphabet: Seq<char>)
    requires
        keys_distinct(a),
    ensures
        keys_distinct(minimized(a, alphabet)),
        minimized(a, alphabet).len() == kept_below(a, alphabet, a.len() as int).len(),
        forall|i: int|
            0 <= i < minimized(a, alphabet).len() ==> #[trigger] minimized(a, alphabet)[i] == merged_state(
                a,
                alphabet,
                kept_below(a, alphabet, a.len() as int)[i],
            ),
        forall|p: int|
            0 <= p < a.len() && #[trigger] is_kept(a, alphabet, p) ==> has_key(
                minimized(a, alphabet),
                a[p].position,
            ) && 0 <= slot(a, alphabet, p) < minimized(a, alphabet).len() && minimized(a, alphabet)[slot(
                a,
                alphabet,
                p,
            )] == merged_state(a, alphabet, p),
        forall|key: Coordinate| #[trigger] has_key(minimized(a, alphabet), key) ==> has_key(a, key),
{
    let n = a.len() as int;
    let kept = kept_below(a, alphabet, n);
    let m = minimized(a, alphabet);
    lemma_kept_below(a, alphabet, n);
    assert forall|i: int, j: int| 0 <= i < j < m.len() implies (#[trigger] m[i]).position != (
    #[trigger] m[j]).position by {
        assert(kept[i] < kept[j]);
        assert(a[kept[i]].position != a[kept[j]].position);
    }
    assert forall|p: int| 0 <= p < a.len() && #[trigger] is_kept(a, alphabet, p) implies has_key(
        m,
        a[p].position,
    ) && 0 <= slot(a, alphabet, p) < m.len() && m[slot(a, alphabet, p)] == merged_state(a, alphabet, p) by {
        assert(kept.contains(p));
        let i = choose|i: int| 0 <= i < kept.len() && kept[i] == p;
        assert(m[i] == merged_state(a, alphabet, p));
        lemma_index_of_unique(m, i);
    }
    assert forall|key: Coordinate| #[trigger] has_key(m, key) implies has_key(a, key) by {
        let i = choose|i: int| 0 <= i < m.len() && (#[trigger] m[i]).position == key;
        assert(a[kept[i]].position == key);
    }
}

/// Leaving out repeated edges keeps exactly the edges that were there.
pub proof fn lemma_first_occurrences_contains(edges: Seq<Edge>, e: Edge)
    ensures
        first_occurrences(edges).contains(e) <==> edges.contains(e),
    decreases edges.len(),
{
    if edges.len() > 0 {
        let front = edges.drop_last();
        lemma_first_occurrences_contains(front, e);
        let kept = first_occurrences(front);
        let all = first_occurrences(edges);
        if edges.contains(e) {
            let i = choose|i: int| 0 <= i < edges.len() && edges[i] == e;
            if i < front.len() {
                assert(front[i] == e);
                assert(front.contains(e));
                let k = choose|k: int| 0 <= k < kept.len() && kept[k] == e;
                assert(all[k] == e);
            } else if kept.contains(e) {
            } else {
                assert(all[all.len() - 1] == e);
            }
        }
        if all.contains(e) {
            let k = choose|k: int| 0 <= k < all.len() && all[k] == e;
            if k < kept.len() {
                assert(kept[k] == e);
                assert(kept.contains(e));
                let i = choose|i: int| 0 <= i < front.len() && front[i] == e;
                assert(edges[i] == e);
            } else {
                assert(edges[edges.len() - 1] == e);
            }
        }
    }
}

/// Leaving out repeated edges does not change the first target on a symbol.
pub proof fn lemma_first_target_first_occurrences(edges: Seq<Edge>, symbol: char)
    ensures
        first_target(first_occurrences(edges), symbol) == first_target(edges, symbol),
    decreases edges.len(),
{
    if edges.len() > 0 {
        let front = edges.drop_last();
        let last = edges.last();
        lemma_first_target_first_occurrences(front, symbol);
        let kept = first_occurrences(front);
        if kept.contains(last) {
            if last.symbol == symbol {
                lemma_first_occurrences_contains(front, last);
                let i = choose|i: int| 0 <= i < front.len() && front[i] == last;
                assert(front[i].symbol == symbol);
                lemma_first_target_is_some(front, symbol);
            }
        } else {
            assert(kept.push(last).drop_last() == kept);
        }
    }
}

/// Redirecting the edges redirects the first target on a symbol.
pub proof fn lemma_first_target_redirected(a: AutomatonView, alphabet: Seq<char>, edges: Seq<Edge>, symbol: char)
    ensures
        first_target(redirected_edges(a, alphabet, edges), symbol) == match first_target(edges, symbol) {
            Some(t) => Some(representative_key(a, alphabet, t)),
            None => None,
        },
    decreases edges.len(),
{
    if edges.len() > 0 {
        let front = edges.drop_last();
        lemma_first_target_redirected(a, alphabet, front, symbol);
        assert(redirected_edges(a, alphabet, edges).drop_last() == redirected_edges(a, alphabet, front));
    }
}

/// A step from a survivor in the minimized automaton leads to the
/// representative of where the step led before.
pub proof fn lemma_minimized_step(a: AutomatonView, alphabet: Seq<char>, p: int, symbol: char)
    requires
        keys_distinct(a),
        0 <= p < a.len(),
        is_kept(a, alphabet, p),
    ensures
        dfa_step(a, p, symbol) is None ==> dfa_step(minimized(a, alphabet), slot(a, alphabet, p), symbol) is None,
        dfa_step(a, p, symbol) is Some ==> {
            let r = representative(a, alphabet, dfa_step(a, p, symbol)->0);
            &&& 0 <= r < a.len()
            &&& is_representative_of(a, alphabet, r, dfa_step(a, p, symbol)->0)
            &&& dfa_step(minimized(a, alphabet), slot(a, alphabet, p), symbol) == Some(slot(a, alphabet, r))
        },
{
    let m = minimized(a, alphabet);
    lemma_minimized_states(a, alphabet);
    let s = slot(a, alphabet, p);
    assert(m[s] == merged_state(a, alphabet, p));
    let edges = a[p].edges;
    lemma_first_target_first_occurrences(redirected_edges(a, alphabet, edges), symbol);
    lemma_first_target_redirected(a, alphabet, edges, symbol);
    match first_target(edges, symbol) {
        Some(t) => {
            if has_key(a, t) {
                let q = index_of(a, t);
                lemma_representative_exists(a, alphabet, q);
                let r = representative(a, alphabet, q);
                assert(is_kept(a, alphabet, r));
                assert(has_key(m, a[r].position));
            } else {
                assert(!has_key(m, t));
            }
        },
        None => {},
    }
}

/// From a survivor, the minimized automaton accepts what the automaton
/// accepted from it.
pub proof fn lemma_minimized_accepts(a: AutomatonView, alphabet: Seq<char>, p: int, w: Seq<char>)
    requires
        strict_dfa(a, alphabet),
        0 <= p < a.len(),
        is_kept(a, alphabet, p),
    ensures
        dfa_accepts_from(minimized(a, alphabet), slot(a, alphabet, p), w) == dfa_accepts_from(a, p, w),
    decreases w.len(),
{
    let m = minimized(a, alphabet);
    lemma_minimized_states(a, alphabet);
    assert(m[slot(a, alphabet, p)] == merged_state(a, alphabet, p));
    if w.len() > 0 {
        lemma_minimized_step(a, alphabet, p, w[0]);
        if dfa_step(a, p, w[0]) is Some {
            let q = dfa_step(a, p, w[0])->0;
            let r = representative(a, alphabet, q);
            lemma_minimized_accepts(a, alphabet, r, w.drop_first());
            lemma_indistinguishable_same_language(a, alphabet, r, q, w.drop_first());
        }
    }
}

/// Minimization preserves the language: the minimized automaton, started
/// in the state that stands for the start state, accepts exactly the
/// strings that the automaton accepts.
pub proof fn law_minimization_preserves_language(
    a: AutomatonView,
    alphabet: Seq<char>,
    start: Coordinate,
    input: Seq<char>,
)
    requires
        strict_dfa(a, alphabet),
    ensures
        dfa_accepts(minimized(a, alphabet), representative_key(a, alphabet, start), input) == dfa_accepts(
            a,
            start,
            input,
        ),
{
    lemma_minimized_states(a, alphabet);
    if has_key(a, start) {
        let q = index_of(a, start);
        lemma_representative_exists(a, alphabet, q);
        let r = representative(a, alphabet, q);
        lemma_minimized_accepts(a, alphabet, r, input);
        lemma_indistinguishable_same_language(a, alphabet, r, q, input);
    } else {
        assert(!has_key(minimized(a, alphabet), start));
    }
}

/// Leaving out repeated edges changes nothing where no edge is repeated.
pub proof fn lemma_first_occurrences_of_distinct(edges: Seq<Edge>)
    requires
        edges_distinct(edges),
    ensures
        first_occurrences(edges) == edges,
    decreases edges.len(),
{
    if edges.len() > 0 {
        let front = edges.drop_last();
        assert forall|i: int, j: int| 0 <= i < j < front.len() implies front[i] != front[j] by {
            assert(edges[i] != edges[j]);
        }
        lemma_first_occurrences_of_distinct(front);
        if front.contains(edges.last()) {
            let i = choose|i: int| 0 <= i < front.len() && front[i] == edges.last();
            assert(edges[i] != edges[edges.len() - 1]);
        }
        assert(front.push(edges.last()) == edges);
    }
}

/// The minimized automaton of a strict deterministic automaton is one too.
pub proof fn lemma_minimized_strict(a: AutomatonView, alphabet: Seq<char>)
    requires
        strict_dfa(a, alphabet),
    ensures
        strict_dfa(minimized(a, alphabet), alphabet),
{
    let m = minimized(a, alphabet);
    let kept = kept_below(a, alphabet, a.len() as int);
    lemma_minimized_states(a, alphabet);
    lemma_kept_below(a, alphabet, a.len() as int);
    assert forall|s: int| 0 <= s < m.len() implies edges_distinct((#[trigger] m[s]).edges) && edges_fit_alphabet(
        m[s].edges,
        alphabet,
    ) && forall|j: int| 0 <= j < m[s].edges.len() ==> has_key(m, (#[trigger] m[s].edges[j]).target) by {
        let p = kept[s];
        let edges = a[p].edges;
        let moved = redirected_edges(a, alphabet, edges);
        assert(m[s] == merged_state(a, alphabet, p));
        assert(edges_fit_alphabet(edges, alphabet));
        assert forall|i: int, j: int| 0 <= i < j < moved.len() implies moved[i] != moved[j] by {
            let c = edges[i].symbol;
            assert(alphabet.contains(c));
            let k = choose|k: int| 0 <= k < alphabet.len() && alphabet[k] == c;
            assert(has_only_edge_on(edges, alphabet[k]));
            let only = choose|only: int| is_only_edge_on(edges, c, only);
            if only != i {
                assert(edges[i].symbol != c);
            } else {
                assert(edges[j].symbol != c);
            }
        }
        lemma_first_occurrences_of_distinct(moved);
        assert(m[s].edges == moved);
        assert forall|k: int| 0 <= k < alphabet.len() implies has_only_edge_on(moved, #[trigger] alphabet[k]) by {
            assert(has_only_edge_on(edges, alphabet[k]));
            let only = choose|only: int| is_only_edge_on(edges, alphabet[k], only);
            assert forall|j: int| 0 <= j < moved.len() && j != only implies (#[trigger] moved[j]).symbol
                != alphabet[k] by {
                assert(edges[j].symbol != alphabet[k]);
            }
            assert(is_only_edge_on(moved, alphabet[k], only));
        }
        assert forall|i: int| 0 <= i < moved.len() implies alphabet.contains((#[trigger] moved[i]).symbol) by {
            assert(alphabet.contains(edges[i].symbol));
        }
        assert forall|j: int| 0 <= j < m[s].edges.len() implies has_key(m, (#[trigger] m[s].edges[j]).target) by {
            let t = edges[j].target;
            assert(has_key(a, a[p].edges[j].target));
            let q = index_of(a, t);
            lemma_representative_exists(a, alphabet, q);
            let r = representative(a, alphabet, q);
            assert(is_kept(a, alphabet, r));
            assert(has_key(m, a[r].position));
        }
    }
    assert(targets_present(m)) by {
        assert forall|i: int, j: int| 0 <= i < m.len() && 0 <= j < m[i].edges.len() implies has_key(
            m,
            (#[trigger] m[i].edges[j]).target,
        ) by {
            assert(edges_distinct(m[i].edges));
        }
    }
}

/// The minimized automaton of a strict deterministic automaton is minimal.
pub proof fn law_minimized_is_minimal(a: AutomatonView, alphabet: Seq<char>)
    requires
        strict_dfa(a, alphabet),
    ensures
        is_minimal(minimized(a, alphabet), alphabet),
{
    let m = minimized(a, alphabet);
    let kept = kept_below(a, alphabet, a.len() as int);
    lemma_minimized_states(a, alphabet);
    lemma_minimized_strict(a, alphabet);
    lemma_kept_below(a, alphabet, a.len() as int);
    assert forall|i: int, j: int| 0 <= i < m.len() && 0 <= j < m.len() && i != j implies #[trigger] distinguishable(
        m,
        alphabet,
        i,
        j,
    ) by {
        let p = kept[i];
        let q = kept[j];
        assert(m[i] == merged_state(a, alphabet, p));
        assert(m[j] == merged_state(a, alphabet, q));
        lemma_index_of_unique(m, i);
        lemma_index_of_unique(m, j);
        if i < j {
            assert(kept[i] < kept[j]);
            lemma_is_kept_elim(a, alphabet, q, p);
            let w = choose|w: Seq<char>| told_apart_by(a, alphabet, p, q, w);
            lemma_told_apart_differ(a, alphabet, p, q, w);
            lemma_minimized_accepts(a, alphabet, p, w);
            lemma_minimized_accepts(a, alphabet, q, w);
            lemma_differ_told_apart(m, alphabet, i, j, w);
        } else {
            assert(kept[j] < kept[i]);
            lemma_is_kept_elim(a, alphabet, p, q);
            let w = choose|w: Seq<char>| told_apart_by(a, alphabet, q, p, w);
            lemma_told_apart_differ(a, alphabet, q, p, w);
            lemma_minimized_accepts(a, alphabet, p, w);
            lemma_minimized_accepts(a, alphabet, q, w);
            lemma_differ_told_apart(m, alphabet, i, j, w);
        }
    }
}

/// Where all of the first `n` states survive, the list of survivors has
/// length `n`.
proof fn lemma_all_kept(a: AutomatonView, alphabet: Seq<char>, n: int)
    requires
        0 <= n,
        forall|p: int| 0 <= p < n ==> #[trigger] is_kept(a, alphabet, p),
    ensures
        kept_below(a, alphabet, n).len() == n,
    decreases n,
{
    if n > 0 {
        lemma_all_kept(a, alphabet, n - 1);
    }
}

/// In a minimal automaton every state survives minimization.
pub proof fn lemma_minimal_keeps_all(a: AutomatonView, alphabet: Seq<char>, p: int)
    requires
        is_minimal(a, alphabet),
        0 <= p < a.len(),
    ensures
        is_kept(a, alphabet, p),
        is_representative_of(a, alphabet, p, p),
        representative(a, alphabet, p) == p,
{
    lemma_is_kept_intro(a, alphabet, p);
    lemma_representative_unique(a, alphabet, p, p);
}

/// An automaton that loses states to minimization is not minimal.
pub proof fn law_minimization_shrinks_only_non_minimal(a: AutomatonView, alphabet: Seq<char>)
    requires
        minimized(a, alphabet).len() < a.len(),
    ensures
        !is_minimal(a, alphabet),
{
    if is_minimal(a, alphabet) {
        assert forall|p: int| 0 <= p < a.len() implies #[trigger] is_kept(a, alphabet, p) by {
            lemma_minimal_keeps_all(a, alphabet, p);
        }
        lemma_all_kept(a, alphabet, a.len() as int);
    }
}

/// Minimizing a second time changes nothing: the number of states stays,
/// and so does the language.
pub proof fn law_minimization_idempotent(
    a: AutomatonView,
    alphabet: Seq<char>,
    start: Coordinate,
    input: Seq<char>,
)
    requires
        strict_dfa(a, alphabet),
    ensures
        minimized(minimized(a, alphabet), alphabet).len() == minimized(a, alphabet).len(),
        dfa_accepts(minimized(minimized(a, alphabet), alphabet), start, input) == dfa_accepts(
            minimized(a, alphabet),
            start,
            input,
        ),
{
    let m = minimized(a, alphabet);
    lemma_minimized_strict(a, alphabet);
    law_minimized_is_minimal(a, alphabet);
    assert forall|p: int| 0 <= p < m.len() implies #[trigger] is_kept(m, alphabet, p) by {
        lemma_minimal_keeps_all(m, alphabet, p);
    }
    lemma_all_kept(m, alphabet, m.len() as int);
    law_minimization_preserves_language(m, alphabet, start, input);
    if has_key(m, start) {
        lemma_minimal_keeps_all(m, alphabet, index_of(m, start));
    }
}

} // verus!
