//! Telling the states of a deterministic automaton apart, and merging those
//! that cannot be told apart.

use crate::automaton::{
    contains_edge, edges_distinct, first_occurrences, has_key, index_of, well_formed, Automaton, AutomatonView,
    Edge, State, StateView,
};
use crate::coordinate::Coordinate;
use crate::masks::{count_true, lemma_count_true_bound, lemma_count_true_update};
use crate::simulation::{dfa_step, first_step};
use vstd::prelude::*;

verus! {

/// Whether the string `w` over the alphabet tells state `i` from state `j`:
/// both walks can follow `w`, and exactly one of them ends in a final state.
pub open spec fn told_apart_by(a: AutomatonView, alphabet: Seq<char>, i: int, j: int, w: Seq<char>) -> bool
    decreases w.len(),
{
    if w.len() == 0 {
        a[i].is_final != a[j].is_final
    } else {
        &&& alphabet.contains(w[0])
        &&& dfa_step(a, i, w[0]) is Some
        &&& dfa_step(a, j, w[0]) is Some
        &&& told_apart_by(a, alphabet, dfa_step(a, i, w[0])->0, dfa_step(a, j, w[0])->0, w.drop_first())
    }
}

/// Whether some string over the alphabet tells state `i` from state `j`.
pub open spec fn distinguishable(a: AutomatonView, alphabet: Seq<char>, i: int, j: int) -> bool {
    exists|w: Seq<char>| told_apart_by(a, alphabet, i, j, w)
}

/// A table of marks has one row per state, and one entry per state in each.
pub open spec fn marks_shape(m: Seq<Vec<bool>>, n: int) -> bool {
    &&& m.len() == n
    &&& forall|i: int| 0 <= i < n ==> (#[trigger] m[i])@.len() == n
}

/// Whether the pair `(i, j)` is marked.
pub open spec fn is_marked(m: Seq<Vec<bool>>, i: int, j: int) -> bool {
    m[i]@[j]
}

/// Whether on `symbol` both states move on, to a pair that is marked.
pub open spec fn leads_to_marked(a: AutomatonView, m: Seq<Vec<bool>>, i: int, j: int, symbol: char) -> bool {
    &&& dfa_step(a, i, symbol) is Some
    &&& dfa_step(a, j, symbol) is Some
    &&& is_marked(m, dfa_step(a, i, symbol)->0, dfa_step(a, j, symbol)->0)
}

/// The rule by which a pair gets its mark: the two states differ in being
/// final, or some symbol of the alphabet leads them to a marked pair.
pub open spec fn marking_rule(a: AutomatonView, alphabet: Seq<char>, m: Seq<Vec<bool>>, i: int, j: int) -> bool {
    ||| a[i].is_final != a[j].is_final
    ||| exists|k: int| 0 <= k < alphabet.len() && leads_to_marked(a, m, i, j, #[trigger] alphabet[k])
}

/// Every mark is justified: a marked pair can be told apart.
pub open spec fn marks_sound(a: AutomatonView, alphabet: Seq<char>, m: Seq<Vec<bool>>) -> bool {
    forall|i: int, j: int|
        0 <= i < a.len() && 0 <= j < a.len() && #[trigger] is_marked(m, i, j) ==> distinguishable(
            a,
            alphabet,
            i,
            j,
        )
}

/// The rule marks nothing new.
pub open spec fn marks_closed(a: AutomatonView, alphabet: Seq<char>, m: Seq<Vec<bool>>) -> bool {
    forall|i: int, j: int|
        0 <= i < a.len() && 0 <= j < a.len() && !(#[trigger] is_marked(m, i, j)) ==> !marking_rule(
            a,
            alphabet,
            m,
            i,
            j,
        )
}

/// The number of marks in a table.
pub open spec fn mark_count(m: Seq<Vec<bool>>) -> nat
    decreases m.len(),
{
    if m.len() == 0 {
        0
    } else {
        mark_count(m.drop_last()) + count_true(m.last()@)
    }
}

proof fn lemma_mark_count_bound(m: Seq<Vec<bool>>, n: int)
    requires
        forall|i: int| 0 <= i < m.len() ==> (#[trigger] m[i])@.len() == n,
        n >= 0,
    ensures
        mark_count(m) <= m.len() * n,
    decreases m.len(),
{
    if m.len() > 0 {
        lemma_mark_count_bound(m.drop_last(), n);
        lemma_count_true_bound(m.last()@);
        assert((m.len() - 1) * n + n == m.len() * n) by (nonlinear_arith);
    } else {
        assert(0 * n == 0) by (nonlinear_arith);
    }
}

proof fn lemma_mark_count_update(before: Seq<Vec<bool>>, after: Seq<Vec<bool>>, i: int, j: int)
    requires
        before.len() == after.len(),
        0 <= i < before.len(),
        0 <= j < before[i]@.len(),
        !before[i]@[j],
        after[i]@ == before[i]@.update(j, true),
        forall|k: int| 0 <= k < before.len() && k != i ==> after[k] == before[k],
    ensures
        mark_count(after) == mark_count(before) + 1,
    decreases before.len(),
{
    if i == before.len() - 1 {
        assert(after.drop_last() =~= before.drop_last());
        lemma_count_true_update(before[i]@, j);
    } else {
        lemma_mark_count_update(before.drop_last(), after.drop_last(), i, j);
    }
}

/// A step of a walk leads to a state of the automaton.
proof fn lemma_step_in_range(a: AutomatonView, i: int, symbol: char)
    ensures
        dfa_step(a, i, symbol) is Some ==> 0 <= dfa_step(a, i, symbol)->0 < a.len(),
{
}

/// A pair that the rule marks, over sound marks, can be told apart.
proof fn lemma_rule_sound(a: AutomatonView, alphabet: Seq<char>, m: Seq<Vec<bool>>, i: int, j: int)
    requires
        marks_sound(a, alphabet, m),
        marking_rule(a, alphabet, m, i, j),
    ensures
        distinguishable(a, alphabet, i, j),
{
    if a[i].is_final != a[j].is_final {
        assert(told_apart_by(a, alphabet, i, j, Seq::<char>::empty()));
    } else {
        let k = choose|k: int| 0 <= k < alphabet.len() && leads_to_marked(a, m, i, j, #[trigger] alphabet[k]);
        let c = alphabet[k];
        let ti = dfa_step(a, i, c)->0;
        let tj = dfa_step(a, j, c)->0;
        lemma_step_in_range(a, i, c);
        lemma_step_in_range(a, j, c);
        assert(is_marked(m, ti, tj));
        let rest = choose|w: Seq<char>| told_apart_by(a, alphabet, ti, tj, w);
        let w = seq![c] + rest;
        assert(w.drop_first() == rest);
        assert(w[0] == c);
        assert(told_apart_by(a, alphabet, i, j, w));
    }
}

/// Once the rule marks nothing new, every pair that a string tells apart is
/// marked.
proof fn lemma_closed_complete(
    a: AutomatonView,
    alphabet: Seq<char>,
    m: Seq<Vec<bool>>,
    i: int,
    j: int,
    w: Seq<char>,
)
    requires
        marks_closed(a, alphabet, m),
        0 <= i < a.len(),
        0 <= j < a.len(),
        told_apart_by(a, alphabet, i, j, w),
    ensures
        is_marked(m, i, j),
    decreases w.len(),
{
    if w.len() == 0 {
        assert(marking_rule(a, alphabet, m, i, j));
    } else {
        let c = w[0];
        let ti = dfa_step(a, i, c)->0;
        let tj = dfa_step(a, j, c)->0;
        lemma_step_in_range(a, i, c);
        lemma_step_in_range(a, j, c);
        lemma_closed_complete(a, alphabet, m, ti, tj, w.drop_first());
        let k = choose|k: int| 0 <= k < alphabet.len() && alphabet[k] == c;
        assert(leads_to_marked(a, m, i, j, alphabet[k]));
        assert(marking_rule(a, alphabet, m, i, j));
    }
}

/// Sets the mark of the pair `(i, j)`.
fn set_mark(marks: &mut Vec<Vec<bool>>, i: usize, j: usize)
    requires
        i < old(marks)@.len(),
        j < old(marks)@[i as int]@.len(),
    ensures
        final(marks)@.len() == old(marks)@.len(),
        final(marks)@[i as int]@ == old(marks)@[i as int]@.update(j as int, true),
        forall|k: int| 0 <= k < old(marks)@.len() && k != i ==> final(marks)@[k] == old(marks)@[k],
{
    let row = &mut marks[i];
    row.set(j, true);
}

/// Whether the rule marks the pair `(i, j)`, given the marks made so far.
fn should_mark(a: &Automaton, input_alphabet: &Vec<char>, marks: &Vec<Vec<bool>>, i: usize, j: usize) -> (r:
    bool)
    requires
        a.well_formed(),
        marks_shape(marks@, a@.len() as int),
        i < a@.len(),
        j < a@.len(),
    ensures
        r == marking_rule(a@, input_alphabet@, marks@, i as int, j as int),
{
    assert(a@[i as int] == a.states@[i as int]@);
    assert(a@[j as int] == a.states@[j as int]@);
    if a.states[i].is_final() != a.states[j].is_final() {
        return true;
    }
    let mut k: usize = 0;
    while k < input_alphabet.len()
        invariant
            a.well_formed(),
            marks_shape(marks@, a@.len() as int),
            i < a@.len(),
            j < a@.len(),
            k <= input_alphabet.len(),
            forall|l: int| 0 <= l < k ==> !leads_to_marked(a@, marks@, i as int, j as int, #[trigger] input_alphabet@[l]),
        decreases input_alphabet.len() - k,
    {
        let c = input_alphabet[k];
        let first = first_step(a, i, c);
        let second = first_step(a, j, c);
        match (first, second) {
            (Some(ti), Some(tj)) => {
                if marks[ti][tj] {
                    assert(leads_to_marked(a@, marks@, i as int, j as int, input_alphabet@[k as int]));
                    return true;
                }
            },
            _ => {},
        }
        k += 1;
    }
    false
}

/// One pass over all ordered pairs of states: marks every unmarked pair
/// that the rule marks, and tells whether it marked any.
fn mark_pass(a: &Automaton, input_alphabet: &Vec<char>, marks: &mut Vec<Vec<bool>>) -> (changed: bool)
    requires
        a.well_formed(),
        marks_shape(old(marks)@, a@.len() as int),
        marks_sound(a@, input_alphabet@, old(marks)@),
    ensures
        marks_shape(final(marks)@, a@.len() as int),
        marks_sound(a@, input_alphabet@, final(marks)@),
        changed ==> mark_count(final(marks)@) > mark_count(old(marks)@),
        !changed ==> mark_count(final(marks)@) == mark_count(old(marks)@),
        !changed ==> marks_closed(a@, input_alphabet@, final(marks)@),
{
    let n = a.len();
    let mut changed = false;
    let mut i: usize = 0;
    while i < n
        invariant
            a.well_formed(),
            n == a@.len(),
            i <= n,
            marks_shape(marks@, n as int),
            marks_sound(a@, input_alphabet@, marks@),
            changed ==> mark_count(marks@) > mark_count(old(marks)@),
            !changed ==> marks@ == old(marks)@,
            !changed ==> forall|p: int, q: int|
                0 <= p < i && 0 <= q < n && !(#[trigger] is_marked(marks@, p, q)) ==> !marking_rule(
                    a@,
                    input_alphabet@,
                    marks@,
                    p,
                    q,
                ),
        decreases n - i,
    {
        let mut j: usize = 0;
        while j < n
            invariant
                a.well_formed(),
                n == a@.len(),
                i < n,
                j <= n,
                marks_shape(marks@, n as int),
                marks_sound(a@, input_alphabet@, marks@),
                changed ==> mark_count(marks@) > mark_count(old(marks)@),
                !changed ==> marks@ == old(marks)@,
                !changed ==> forall|p: int, q: int|
                    0 <= p < i && 0 <= q < n && !(#[trigger] is_marked(marks@, p, q)) ==> !marking_rule(
                        a@,
                        input_alphabet@,
                        marks@,
                        p,
                        q,
                    ),
                !changed ==> forall|q: int|
                    0 <= q < j && !(#[trigger] is_marked(marks@, i as int, q)) ==> !marking_rule(
                        a@,
                        input_alphabet@,
                        marks@,
                        i as int,
                        q,
                    ),
            decreases n - j,
        {
            if !marks[i][j] && should_mark(a, input_alphabet, marks, i, j) {
                let ghost before = marks@;
                proof {
                    lemma_rule_sound(a@, input_alphabet@, before, i as int, j as int);
                }
                set_mark(marks, i, j);
                proof {
                    lemma_mark_count_update(before, marks@, i as int, j as int);
                    assert forall|p: int, q: int|
                        0 <= p < a@.len() && 0 <= q < a@.len() && #[trigger] is_marked(
                            marks@,
                            p,
                            q,
                        ) implies distinguishable(a@, input_alphabet@, p, q) by {
                        if p == i && q == j {
                        } else {
                            assert(is_marked(before, p, q));
                        }
                    }
                    assert forall|p: int| 0 <= p < n implies (#[trigger] marks@[p])@.len() == n by {
                        if p != i {
                            assert(marks@[p] == before[p]);
                        }
                    }
                }
                changed = true;
            }
            j += 1;
        }
        i += 1;
    }
    changed
}

/// A table without marks for `n` states.
fn no_marks(n: usize) -> (marks: Vec<Vec<bool>>)
    ensures
        marks_shape(marks@, n as int),
        forall|i: int, j: int| 0 <= i < n && 0 <= j < n ==> !(#[trigger] is_marked(marks@, i, j)),
{
    let mut marks: Vec<Vec<bool>> = Vec::new();
    let mut i: usize = 0;
    while i < n
        invariant
            i <= n,
            marks@.len() == i,
            forall|p: int| 0 <= p < i ==> (#[trigger] marks@[p])@.len() == n,
            forall|p: int, q: int| 0 <= p < i && 0 <= q < n ==> !(#[trigger] is_marked(marks@, p, q)),
        decreases n - i,
    {
        let mut row: Vec<bool> = Vec::new();
        let mut j: usize = 0;
        while j < n
            invariant
                j <= n,
                row@.len() == j,
                forall|q: int| 0 <= q < j ==> !row@[q],
            decreases n - j,
        {
            row.push(false);
            j += 1;
        }
        let ghost before = marks@;
        marks.push(row);
        proof {
            assert forall|p: int, q: int| 0 <= p < i + 1 && 0 <= q < n implies !(#[trigger] is_marked(
                marks@,
                p,
                q,
            )) by {
                if p < i {
                    assert(marks@[p] == before[p]);
                    assert(is_marked(before, p, q) == is_marked(marks@, p, q));
                }
            }
        }
        i += 1;
    }
    marks
}

/// Marks the pairs of states that can be told apart. The table that comes
/// back has a mark at `(i, j)` exactly where some string over the alphabet
/// that both states can follow ends in a final state for one of them only.
///
/// It starts without marks and passes over all ordered pairs, marking by the
/// rule, until a pass marks nothing.
pub fn mark_unequivalent_states_in_dfa(a: &Automaton, input_alphabet: &Vec<char>) -> (marks: Vec<Vec<bool>>)
    requires
        a.well_formed(),
    ensures
        marks_shape(marks@, a@.len() as int),
        forall|i: int, j: int|
            0 <= i < a@.len() && 0 <= j < a@.len() ==> #[trigger] is_marked(marks@, i, j) == distinguishable(
                a@,
                input_alphabet@,
                i,
                j,
            ),
{
    let n = a.len();
    let mut marks = no_marks(n);
    let mut were_changes_made = true;
    proof {
        lemma_mark_count_bound(marks@, n as int);
    }
    while were_changes_made
        invariant
            a.well_formed(),
            n == a@.len(),
            marks_shape(marks@, n as int),
            marks_sound(a@, input_alphabet@, marks@),
            mark_count(marks@) <= n * n,
            !were_changes_made ==> marks_closed(a@, input_alphabet@, marks@),
        decreases
            n * n - mark_count(marks@) + if were_changes_made {
                1int
            } else {
                0int
            },
    {
        were_changes_made = mark_pass(a, input_alphabet, &mut marks);
        proof {
            lemma_mark_count_bound(marks@, n as int);
        }
    }
    proof {
        assert forall|i: int, j: int| 0 <= i < a@.len() && 0 <= j < a@.len() implies #[trigger] is_marked(
            marks@,
            i,
            j,
        ) == distinguishable(a@, input_alphabet@, i, j) by {
            if distinguishable(a@, input_alphabet@, i, j) {
                let w = choose|w: Seq<char>| told_apart_by(a@, input_alphabet@, i, j, w);
                lemma_closed_complete(a@, input_alphabet@, marks@, i, j, w);
            }
        }
    }
    marks
}

/// Whether the automaton is minimal: every two distinct states can be told
/// apart.
pub fn is_dfa_minimal(a: &Automaton, input_alphabet: &Vec<char>) -> (minimal: bool)
    requires
        a.well_formed(),
    ensures
        minimal == is_minimal(a@, input_alphabet@),
{
    let marks = mark_unequivalent_states_in_dfa(a, input_alphabet);
    let n = a.len();
    let mut i: usize = 0;
    while i < n
        invariant
            n == a@.len(),
            i <= n,
            marks_shape(marks@, n as int),
            forall|p: int, q: int|
                0 <= p < n && 0 <= q < n ==> #[trigger] is_marked(marks@, p, q) == distinguishable(
                    a@,
                    input_alphabet@,
                    p,
                    q,
                ),
            forall|p: int, q: int|
                0 <= p < i && 0 <= q < n && p != q ==> #[trigger] distinguishable(a@, input_alphabet@, p, q),
        decreases n - i,
    {
        let mut j: usize = 0;
        while j < n
            invariant
                n == a@.len(),
                i < n,
                j <= n,
                marks_shape(marks@, n as int),
                forall|p: int, q: int|
                    0 <= p < n && 0 <= q < n ==> #[trigger] is_marked(marks@, p, q) == distinguishable(
                        a@,
                        input_alphabet@,
                        p,
                        q,
                    ),
                forall|q: int| 0 <= q < j && i != q ==> #[trigger] distinguishable(a@, input_alphabet@, i as int, q),
            decreases n - j,
        {
            if i != j && !marks[i][j] {
                assert(!is_marked(marks@, i as int, j as int));
                assert(!distinguishable(a@, input_alphabet@, i as int, j as int));
                return false;
            }
            assert(i != j ==> is_marked(marks@, i as int, j as int));
            j += 1;
        }
        i += 1;
    }
    true
}

/// Whether state `i` survives minimization: no earlier survivor is
/// indistinguishable from it.
pub open spec fn is_kept(a: AutomatonView, alphabet: Seq<char>, i: int) -> bool
    decreases i,
{
    forall|p: int| #[trigger] earlier(p, i) && is_kept(a, alphabet, p) ==> distinguishable(a, alphabet, p, i)
}

/// Whether `p` is the position of a state that comes before state `i`.
pub open spec fn earlier(p: int, i: int) -> bool {
    0 <= p < i
}

/// Whether `p` stands for `q` after minimization: `p` is the first survivor
/// that cannot be told apart from `q` (which is `q` itself if `q` survives).
pub open spec fn is_representative_of(a: AutomatonView, alphabet: Seq<char>, p: int, q: int) -> bool {
    &&& 0 <= p <= q
    &&& is_kept(a, alphabet, p)
    &&& p == q || !distinguishable(a, alphabet, p, q)
    &&& forall|r: int| 0 <= r < p && #[trigger] is_kept(a, alphabet, r) ==> distinguishable(a, alphabet, r, q)
}

/// The state that stands for `q` after minimization.
pub open spec fn representative(a: AutomatonView, alphabet: Seq<char>, q: int) -> int {
    choose|p: int| is_representative_of(a, alphabet, p, q)
}

/// The key that replaces `key` as a target: that of the representative of
/// its state. A key without a state stays as it is.
pub open spec fn representative_key(a: AutomatonView, alphabet: Seq<char>, key: Coordinate) -> Coordinate {
    if has_key(a, key) {
        a[representative(a, alphabet, index_of(a, key))].position
    } else {
        key
    }
}

/// The edges of a state with every target replaced by its representative.
pub open spec fn redirected_edges(a: AutomatonView, alphabet: Seq<char>, edges: Seq<Edge>) -> Seq<Edge> {
    edges.map_values(|e: Edge| Edge { symbol: e.symbol, target: representative_key(a, alphabet, e.target) })
}

/// The surviving state `p` as it stands in the minimized automaton: it is a
/// start state if any state it stands for is, and its edges lead to
/// representatives.
pub open spec fn merged_state(a: AutomatonView, alphabet: Seq<char>, p: int) -> StateView {
    StateView {
        position: a[p].position,
        is_final: a[p].is_final,
        is_start: exists|q: int| 0 <= q < a.len() && representative(a, alphabet, q) == p && (#[trigger] a[q]).is_start,
        edges: first_occurrences(redirected_edges(a, alphabet, a[p].edges)),
    }
}

/// The survivors among the first `n` states, in order.
pub open spec fn kept_below(a: AutomatonView, alphabet: Seq<char>, n: int) -> Seq<int>
    decreases n,
{
    if n <= 0 {
        Seq::empty()
    } else {
        let front = kept_below(a, alphabet, n - 1);
        if is_kept(a, alphabet, n - 1) {
            front.push(n - 1)
        } else {
            front
        }
    }
}

/// The minimized automaton: the survivors, in order, each merged with the
/// states it stands for.
pub open spec fn minimized(a: AutomatonView, alphabet: Seq<char>) -> AutomatonView {
    kept_below(a, alphabet, a.len() as int).map_values(|p: int| merged_state(a, alphabet, p))
}

/// The position of the last state that is flagged as a start state.
pub open spec fn last_start(a: AutomatonView) -> Option<int>
    decreases a.len(),
{
    if a.len() == 0 {
        None
    } else if a.last().is_start {
        Some(a.len() - 1)
    } else {
        last_start(a.drop_last())
    }
}

/// A state survives if every earlier survivor can be told apart from it.
pub proof fn lemma_is_kept_intro(a: AutomatonView, alphabet: Seq<char>, i: int)
    requires
        forall|p: int| 0 <= p < i && #[trigger] is_kept(a, alphabet, p) ==> distinguishable(a, alphabet, p, i),
    ensures
        is_kept(a, alphabet, i),
{
    assert forall|p: int| #[trigger] earlier(p, i) && is_kept(a, alphabet, p) implies distinguishable(
        a,
        alphabet,
        p,
        i,
    ) by {
    }
}

/// A survivor can be told apart from every earlier survivor.
pub proof fn lemma_is_kept_elim(a: AutomatonView, alphabet: Seq<char>, i: int, p: int)
    requires
        is_kept(a, alphabet, i),
        0 <= p < i,
        is_kept(a, alphabet, p),
    ensures
        distinguishable(a, alphabet, p, i),
{
    assert(earlier(p, i));
}

/// Two states that both stand for `q` are the same state.
pub proof fn lemma_representative_unique(a: AutomatonView, alphabet: Seq<char>, p: int, q: int)
    requires
        is_representative_of(a, alphabet, p, q),
    ensures
        representative(a, alphabet, q) == p,
{
    let other = representative(a, alphabet, q);
    assert(is_representative_of(a, alphabet, other, q));
    if other < p {
        assert(is_kept(a, alphabet, other));
        assert(distinguishable(a, alphabet, other, q));
    } else if p < other {
        assert(is_kept(a, alphabet, p));
        assert(distinguishable(a, alphabet, p, q));
    }
}

/// Assigns every state its representative: position `q` of the result
/// holds the state that stands for `q`.
pub fn assign_representatives(a: &Automaton, input_alphabet: &Vec<char>) -> (rep: Vec<usize>)
    requires
        a.well_formed(),
    ensures
        rep@.len() == a@.len(),
        forall|q: int| 0 <= q < rep@.len() ==> is_representative_of(a@, input_alphabet@, #[trigger] rep@[q] as int, q),
{
    let marks = mark_unequivalent_states_in_dfa(a, input_alphabet);
    let n = a.len();
    let mut rep: Vec<usize> = Vec::new();
    let mut k: usize = 0;
    while k < n
        invariant
            k <= n,
            rep@.len() == k,
            forall|q: int| 0 <= q < k ==> #[trigger] rep@[q] == q,
        decreases n - k,
    {
        rep.push(k);
        k += 1;
    }
    let ghost av = a@;
    let ghost sigma = input_alphabet@;
    let mut p: usize = 0;
    while p < n
        invariant
            n == av.len(),
            av == a@,
            sigma == input_alphabet@,
            p <= n,
            rep@.len() == n,
            marks_shape(marks@, n as int),
            forall|i: int, j: int|
                0 <= i < n && 0 <= j < n ==> #[trigger] is_marked(marks@, i, j) == distinguishable(av, sigma, i, j),
            forall|q: int| 0 <= q < n ==> (#[trigger] rep@[q]) <= q,
            forall|q: int| 0 <= q < p ==> ((#[trigger] rep@[q]) == q <==> is_kept(av, sigma, q)),
            forall|q: int|
                0 <= q < n && (#[trigger] rep@[q]) != q ==> rep@[q] < p && is_representative_of(
                    av,
                    sigma,
                    rep@[q] as int,
                    q,
                ),
            forall|q: int, r: int|
                p <= q < n && (#[trigger] rep@[q]) == q && 0 <= r < p && #[trigger] is_kept(av, sigma, r)
                    ==> distinguishable(av, sigma, r, q),
        decreases n - p,
    {
        if rep[p] == p {
            proof {
                assert forall|r: int| 0 <= r < p && #[trigger] is_kept(av, sigma, r) implies distinguishable(
                    av,
                    sigma,
                    r,
                    p as int,
                ) by {
                    assert(rep@[p as int] == p);
                }
                lemma_is_kept_intro(av, sigma, p as int);
            }
            let mut q: usize = p + 1;
            while q < n
                invariant
                    n == av.len(),
                    p < n,
                    p < q <= n,
                    rep@.len() == n,
                    rep@[p as int] == p,
                    is_kept(av, sigma, p as int),
                    marks_shape(marks@, n as int),
                    forall|i: int, j: int|
                        0 <= i < n && 0 <= j < n ==> #[trigger] is_marked(marks@, i, j) == distinguishable(
                            av,
                            sigma,
                            i,
                            j,
                        ),
                    forall|t: int| 0 <= t < n ==> (#[trigger] rep@[t]) <= t,
                    forall|t: int| 0 <= t < p ==> ((#[trigger] rep@[t]) == t <==> is_kept(av, sigma, t)),
                    forall|t: int|
                        0 <= t < n && (#[trigger] rep@[t]) != t ==> rep@[t] <= p && is_representative_of(
                            av,
                            sigma,
                            rep@[t] as int,
                            t,
                        ),
                    forall|t: int, r: int|
                        p <= t < n && (#[trigger] rep@[t]) == t && 0 <= r < p && #[trigger] is_kept(av, sigma, r)
                            ==> distinguishable(av, sigma, r, t),
                    forall|t: int| p < t < q && (#[trigger] rep@[t]) == t ==> distinguishable(av, sigma, p as int, t),
                decreases n - q,
            {
                if rep[q] == q && !marks[p][q] {
                    assert(!is_marked(marks@, p as int, q as int));
                    assert(is_representative_of(av, sigma, p as int, q as int));
                    rep.set(q, p);
                } else if rep[q] == q {
                    assert(is_marked(marks@, p as int, q as int));
                }
                q += 1;
            }
        } else {
            proof {
                let r = rep@[p as int] as int;
                assert(is_representative_of(av, sigma, r, p as int));
                if is_kept(av, sigma, p as int) {
                    lemma_is_kept_elim(av, sigma, p as int, r);
                }
            }
        }
        p += 1;
    }
    proof {
        assert forall|q: int| 0 <= q < rep@.len() implies is_representative_of(
            av,
            sigma,
            #[trigger] rep@[q] as int,
            q,
        ) by {
            if rep@[q] == q {
                assert(is_kept(av, sigma, q));
                assert forall|r: int| 0 <= r < q && #[trigger] is_kept(av, sigma, r) implies distinguishable(
                    av,
                    sigma,
                    r,
                    q,
                ) by {
                    lemma_is_kept_elim(av, sigma, q, r);
                }
            }
        }
    }
    rep
}

/// Whether the surviving state `p` stands for a start state.
fn stands_for_start(a: &Automaton, rep: &Vec<usize>, p: usize) -> (b: bool)
    requires
        rep@.len() == a@.len(),
    ensures
        b == exists|q: int| 0 <= q < a@.len() && rep@[q] == p && (#[trigger] a@[q]).is_start,
{
    let mut q: usize = 0;
    while q < a.len()
        invariant
            q <= a@.len(),
            rep@.len() == a@.len(),
            forall|t: int| 0 <= t < q ==> !(rep@[t] == p && (#[trigger] a@[t]).is_start),
        decreases a@.len() - q,
    {
        assert(a@[q as int] == a.states@[q as int]@);
        if rep[q] == p && a.states[q].is_start() {
            return true;
        }
        q += 1;
    }
    false
}

/// The edges of state `p` with every target replaced by its representative,
/// each resulting edge once.
fn remove_redundant_state_connections(a: &Automaton, rep: &Vec<usize>, p: usize, Ghost(alphabet): Ghost<Seq<char>>) -> (edges:
    Vec<Edge>)
    requires
        a.well_formed(),
        p < a@.len(),
        rep@.len() == a@.len(),
        forall|q: int| 0 <= q < rep@.len() ==> is_representative_of(a@, alphabet, #[trigger] rep@[q] as int, q),
    ensures
        edges@ == first_occurrences(redirected_edges(a@, alphabet, a@[p as int].edges)),
        edges_distinct(edges@),
{
    let mut edges: Vec<Edge> = Vec::new();
    let ghost source = a@[p as int].edges;
    assert(a@[p as int] == a.states@[p as int]@);
    let mut k: usize = 0;
    while k < a.states[p].connections.len()
        invariant
            a.well_formed(),
            p < a@.len(),
            source == a.states@[p as int].connections@,
            rep@.len() == a@.len(),
            forall|q: int| 0 <= q < rep@.len() ==> is_representative_of(a@, alphabet, #[trigger] rep@[q] as int, q),
            k <= source.len(),
            edges@ == first_occurrences(redirected_edges(a@, alphabet, source.subrange(0, k as int))),
            edges_distinct(edges@),
        decreases source.len() - k,
    {
        let e = a.states[p].connections[k];
        let target = match a.position_of(e.target) {
            Some(i) => {
                proof {
                    lemma_representative_unique(a@, alphabet, rep@[i as int] as int, i as int);
                    assert(a@[rep@[i as int] as int] == a.states@[rep@[i as int] as int]@);
                }
                a.states[rep[i]].position
            },
            None => e.target,
        };
        let redirected = Edge { symbol: e.symbol, target };
        proof {
            let next = redirected_edges(a@, alphabet, source.subrange(0, k + 1));
            assert(next.drop_last() == redirected_edges(a@, alphabet, source.subrange(0, k as int)));
            assert(next.last() == redirected);
        }
        if !contains_edge(&edges, redirected) {
            edges.push(redirected);
        }
        k += 1;
    }
    assert(source.subrange(0, k as int) == source);
    edges
}

/// Minimizes the automaton: of the states that cannot be told apart, the
/// first one stays and stands for the others. Every edge is redirected to
/// the representative of its target, and a state that stands for a start
/// state becomes one. Returns the position of the (last) start state in the
/// new automaton, and the new automaton; the one given is left as it is.
pub fn minimize_dfa(a: &Automaton, input_alphabet: &Vec<char>) -> (r: (Option<usize>, Automaton))
    requires
        a.well_formed(),
    ensures
        r.1@ == minimized(a@, input_alphabet@),
        r.1.well_formed(),
        r.0 is Some <==> last_start(r.1@) is Some,
        r.0 is Some ==> r.0->0 == last_start(r.1@)->0,
{
    let rep = assign_representatives(a, input_alphabet);
    let n = a.len();
    let ghost av = a@;
    let ghost sigma = input_alphabet@;
    let mut minimized_states: Vec<State> = Vec::new();
    let mut start_state_index: Option<usize> = None;
    let mut p: usize = 0;
    proof {
        assert forall|q: int| 0 <= q < n implies representative(av, sigma, q) == #[trigger] rep@[q] by {
            lemma_representative_unique(av, sigma, rep@[q] as int, q);
        }
    }
    while p < n
        invariant
            a.well_formed(),
            av == a@,
            sigma == input_alphabet@,
            n == av.len(),
            p <= n,
            rep@.len() == n,
            forall|q: int| 0 <= q < n ==> is_representative_of(av, sigma, #[trigger] rep@[q] as int, q),
            forall|q: int| 0 <= q < n ==> representative(av, sigma, q) == #[trigger] rep@[q],
            minimized_states@.len() == kept_below(av, sigma, p as int).len(),
            minimized_states@.len() <= p,
            forall|i: int|
                0 <= i < minimized_states@.len() ==> (#[trigger] minimized_states@[i])@ == merged_state(
                    av,
                    sigma,
                    kept_below(av, sigma, p as int)[i],
                ),
            forall|i: int|
                0 <= i < minimized_states@.len() ==> 0 <= #[trigger] kept_below(av, sigma, p as int)[i] < p,
            forall|i: int, j: int|
                0 <= i < j < minimized_states@.len() ==> kept_below(av, sigma, p as int)[i] < kept_below(
                    av,
                    sigma,
                    p as int,
                )[j],
            forall|i: int| 0 <= i < minimized_states@.len() ==> (#[trigger] minimized_states@[i]).well_formed(),
            start_state_index is Some <==> last_start(
                Seq::new(minimized_states@.len(), |i: int| minimized_states@[i]@),
            ) is Some,
            start_state_index is Some ==> start_state_index->0 == last_start(
                Seq::new(minimized_states@.len(), |i: int| minimized_states@[i]@),
            )->0,
        decreases n - p,
    {
        let ghost before_states = Seq::new(minimized_states@.len(), |i: int| minimized_states@[i]@);
        let ghost before_kept = kept_below(av, sigma, p as int);
        assert(av[p as int] == a.states@[p as int]@);
        if rep[p] == p {
            let is_start = stands_for_start(a, &rep, p);
            let connections = remove_redundant_state_connections(a, &rep, p, Ghost(sigma));
            let state = State {
                position: a.states[p].position,
                connections,
                is_start,
                is_final: a.states[p].is_final,
            };
            proof {
                assert(is_kept(av, sigma, p as int));
                assert(state@ == merged_state(av, sigma, p as int));
            }
            if is_start {
                start_state_index = Some(minimized_states.len());
            }
            minimized_states.push(state);
            proof {
                let now = Seq::new(minimized_states@.len(), |i: int| minimized_states@[i]@);
                assert(now.drop_last() == before_states);
                assert(kept_below(av, sigma, p + 1) == before_kept.push(p as int));
            }
        } else {
            proof {
                let r = rep@[p as int] as int;
                assert(is_representative_of(av, sigma, r, p as int));
                if is_kept(av, sigma, p as int) {
                    lemma_is_kept_elim(av, sigma, p as int, r);
                }
                assert(kept_below(av, sigma, p + 1) == before_kept);
            }
        }
        p += 1;
    }
    let result = Automaton { states: minimized_states };
    proof {
        let kept = kept_below(av, sigma, n as int);
        assert(result@ =~= minimized(av, sigma));
        assert forall|i: int, j: int| 0 <= i < j < result@.len() implies (#[trigger] result@[i]).position != (
        #[trigger] result@[j]).position by {
            assert(kept[i] < kept[j]);
            assert(av[kept[i]].position != av[kept[j]].position);
        }
        assert forall|i: int| 0 <= i < result@.len() implies edges_distinct((#[trigger] result@[i]).edges) by {
            assert(result.states@[i].well_formed());
        }
    }
    (start_state_index, result)
}

/// An automaton is minimal when every two distinct states can be told apart.
pub open spec fn is_minimal(a: AutomatonView, alphabet: Seq<char>) -> bool {
    forall|i: int, j: int|
        0 <= i < a.len() && 0 <= j < a.len() && i != j ==> #[trigger] distinguishable(a, alphabet, i, j)
}

} // verus!
