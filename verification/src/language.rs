//! Describing the language of an automaton: the strings read on the way
//! from the start state to a final state, each with the loops that can be
//! gone round at that final state.

use crate::automaton::{
    has_key, index_of, targets_present, Automaton, AutomatonView, Edge,
};
use crate::coordinate::Coordinate;
use crate::determinization::convert_nfa_to_dfa;
use crate::masks::{
    count_all_true, count_true, lemma_count_all_true_bound, lemma_count_all_true_update,
    lemma_count_true_bound, lemma_count_true_update, mask_with, new_mask, total_flags,
};
use crate::text::{clone_text, string_of};
use vstd::prelude::*;

verus! {

/// The kind of an automaton.
#[derive(Debug, PartialEq, Eq, Clone, Copy, Structural)]
pub enum TypeOfAutomata {
    DFA,
    NFA,
}

/// The texts of a list of strings of characters.
pub open spec fn texts(strings: Seq<Vec<char>>) -> Seq<Seq<char>> {
    Seq::new(strings.len(), |i: int| strings[i]@)
}

/// The flags of a table, row by row.
pub open spec fn rows(marks: Seq<Vec<bool>>) -> Seq<Seq<bool>> {
    Seq::new(marks.len(), |i: int| marks[i]@)
}

/// The strings read on the paths from state `cur` to state `end` that pass
/// no state flagged in `visited`, and none twice. A path ends where it
/// reaches `end` with something read. The paths are taken in the order of
/// the edges. `fuel` bounds the number of states a path can still enter.
pub open spec fn unvisited_paths(
    a: AutomatonView,
    cur: int,
    end: int,
    consumed: Seq<char>,
    visited: Seq<bool>,
    fuel: nat,
) -> Seq<Seq<char>>
    decreases fuel, a[cur].edges.len() + 1,
{
    if cur == end && consumed.len() > 0 {
        seq![consumed]
    } else {
        paths_over(a, cur, end, consumed, visited, fuel, 0)
    }
}

/// The strings read on the paths that leave state `cur` by its edges from
/// the one at `k` on.
pub open spec fn paths_over(
    a: AutomatonView,
    cur: int,
    end: int,
    consumed: Seq<char>,
    visited: Seq<bool>,
    fuel: nat,
    k: int,
) -> Seq<Seq<char>>
    decreases fuel, a[cur].edges.len() - k,
{
    if k < 0 || k >= a[cur].edges.len() {
        Seq::empty()
    } else {
        let e = a[cur].edges[k];
        let next = index_of(a, e.target);
        let here = if fuel > 0 && has_key(a, e.target) && !visited[next] {
            unvisited_paths(
                a,
                next,
                end,
                consumed.push(e.symbol),
                visited.update(next, true),
                (fuel - 1) as nat,
            )
        } else {
            Seq::empty()
        };
        here + paths_over(a, cur, end, consumed, visited, fuel, k + 1)
    }
}

/// What a search for loops has found, and the edges it has taken.
pub struct LoopSearch {
    pub found: Seq<Seq<char>>,
    pub marks: Seq<Seq<bool>>,
}

/// Whether state `p` has an edge labelled `symbol` to state `cur` that was
/// taken.
pub open spec fn arrived_by(a: AutomatonView, marks: Seq<Seq<bool>>, p: int, symbol: char, cur: int) -> bool {
    exists|j: int|
        0 <= j < a[p].edges.len() && #[trigger] a[p].edges[j] == (Edge { symbol, target: a[cur].position })
            && marks[p][j]
}

/// The strings read on the loops back to state `end`, searched from state
/// `cur`, reached from state `prev`. No edge is taken twice, in the whole
/// search; and an edge from a state to itself is not taken where the state
/// was entered by an edge with the same symbol. A loop ends where it
/// reaches `end` with something read. `fuel` bounds the number of edges
/// that can still be taken one after another.
pub open spec fn loops_from(
    a: AutomatonView,
    prev: Option<int>,
    cur: int,
    end: int,
    consumed: Seq<char>,
    marks: Seq<Seq<bool>>,
    fuel: nat,
) -> LoopSearch
    decreases fuel, a[cur].edges.len() + 1,
{
    if cur == end && consumed.len() > 0 {
        LoopSearch { found: seq![consumed], marks }
    } else {
        loops_over(a, prev, cur, end, consumed, marks, fuel, 0)
    }
}

/// The search for loops over the edges of state `cur` from the one at `k`
/// on.
pub open spec fn loops_over(
    a: AutomatonView,
    prev: Option<int>,
    cur: int,
    end: int,
    consumed: Seq<char>,
    marks: Seq<Seq<bool>>,
    fuel: nat,
    k: int,
) -> LoopSearch
    decreases fuel, a[cur].edges.len() - k,
{
    if k < 0 || k >= a[cur].edges.len() {
        LoopSearch { found: Seq::empty(), marks }
    } else {
        let e = a[cur].edges[k];
        let next = index_of(a, e.target);
        let detour = prev is Some && cur == next && arrived_by(a, marks, prev->0, e.symbol, cur);
        if !has_key(a, e.target) || detour || marks[cur][k] || fuel == 0 {
            loops_over(a, prev, cur, end, consumed, marks, fuel, k + 1)
        } else {
            let first = loops_from(
                a,
                Some(cur),
                next,
                end,
                consumed.push(e.symbol),
                marks.update(cur, marks[cur].update(k, true)),
                (fuel - 1) as nat,
            );
            let rest = loops_over(a, prev, cur, end, consumed, first.marks, fuel, k + 1);
            LoopSearch { found: first.found + rest.found, marks: rest.marks }
        }
    }
}

/// The strings with every repetition of an earlier one left out.
pub open spec fn unique_texts(s: Seq<Seq<char>>) -> Seq<Seq<char>>
    decreases s.len(),
{
    if s.len() == 0 {
        Seq::empty()
    } else {
        let front = unique_texts(s.drop_last());
        if front.contains(s.last()) {
            front
        } else {
            front.push(s.last())
        }
    }
}

/// A table without marks, shaped like the edges of the automaton.
pub open spec fn no_marks_for(a: AutomatonView) -> Seq<Seq<bool>> {
    Seq::new(a.len(), |i: int| Seq::new(a[i].edges.len(), |j: int| false))
}

/// The number of edges of the automaton.
pub open spec fn edge_count(a: AutomatonView) -> nat {
    total_flags(no_marks_for(a))
}

/// The strings read on the ways from the start state to the final state
/// `f`, each once.
pub open spec fn direct_paths(a: AutomatonView, start: int, f: int) -> Seq<Seq<char>> {
    unique_texts(unvisited_paths(a, start, f, Seq::empty(), only_state(a.len(), start), a.len()))
}

/// The flags of `n` states with only the state at `start` flagged.
pub open spec fn only_state(n: nat, start: int) -> Seq<bool> {
    Seq::new(n, |i: int| i == start)
}

/// The strings read on the loops at the final state `f`, each once.
pub open spec fn loops_at(a: AutomatonView, f: int) -> Seq<Seq<char>> {
    unique_texts(loops_from(a, None, f, f, Seq::empty(), no_marks_for(a), edge_count(a)).found)
}

/// One part of the description of a language: a string, and the loops
/// that can follow it.
pub struct Acceptance {
    pub direct: Seq<char>,
    pub loops: Seq<Seq<char>>,
}

/// The position of the first part for the string `direct` from `from`
/// on, if there is one.
pub open spec fn first_part(parts: Seq<Acceptance>, direct: Seq<char>, from: int) -> Option<int>
    decreases parts.len() - from,
{
    if from < 0 || from >= parts.len() {
        None
    } else if parts[from].direct == direct {
        Some(from)
    } else {
        first_part(parts, direct, from + 1)
    }
}

/// The position of the part for the string `direct`, if there is one.
pub open spec fn part_for(parts: Seq<Acceptance>, direct: Seq<char>) -> Option<int> {
    first_part(parts, direct, 0)
}

/// The parts with the string `direct` entered: a part of its own if it
/// has none, and the loops added to its part.
pub open spec fn with_path(parts: Seq<Acceptance>, direct: Seq<char>, loops: Seq<Seq<char>>) -> Seq<
    Acceptance,
> {
    match part_for(parts, direct) {
        Some(i) => parts.update(i, Acceptance { direct, loops: unique_texts(parts[i].loops + loops) }),
        None => parts.push(Acceptance { direct, loops: unique_texts(loops) }),
    }
}

/// The parts with the strings of `paths` entered, all with the same
/// loops.
pub open spec fn with_paths(parts: Seq<Acceptance>, paths: Seq<Seq<char>>, loops: Seq<Seq<char>>) -> Seq<
    Acceptance,
>
    decreases paths.len(),
{
    if paths.len() == 0 {
        parts
    } else {
        with_path(with_paths(parts, paths.drop_last(), loops), paths.last(), loops)
    }
}

/// The parts after the final states among the first `bound` states have
/// been entered.
pub open spec fn collected_parts(a: AutomatonView, start: int, bound: int) -> Seq<Acceptance>
    decreases bound,
{
    if bound <= 0 {
        if a[start].is_final {
            seq![Acceptance { direct: seq!['\u{3b5}'], loops: Seq::empty() }]
        } else {
            Seq::empty()
        }
    } else {
        let before = collected_parts(a, start, bound - 1);
        if a[bound - 1].is_final {
            with_paths(before, direct_paths(a, start, bound - 1), loops_at(a, bound - 1))
        } else {
            before
        }
    }
}

/// The strings with ` + ` between them.
pub open spec fn summed(strings: Seq<Seq<char>>) -> Seq<char>
    decreases strings.len(),
{
    if strings.len() == 0 {
        Seq::empty()
    } else if strings.len() == 1 {
        strings[0]
    } else {
        summed(strings.drop_last()) + seq![' ', '+', ' '] + strings.last()
    }
}

/// One part as it is written: the string, and behind it, if there are
/// loops, their sum in brackets, raised to the power n.
pub open spec fn part_text(part: Acceptance) -> Seq<char> {
    if part.loops.len() == 0 {
        part.direct
    } else {
        part.direct + seq!['('] + summed(part.loops) + seq![')', '\u{207f}']
    }
}

/// The texts of the parts.
pub open spec fn part_texts(parts: Seq<Acceptance>) -> Seq<Seq<char>> {
    Seq::new(parts.len(), |i: int| part_text(parts[i]))
}

/// The description as it is written: the sum of the parts in braces, with
/// the note that n is a natural number.
pub open spec fn description(parts: Seq<Acceptance>) -> Seq<char> {
    seq!['{'] + summed(part_texts(parts)) + seq![' ', '|', ' ', 'n', ' ', '\u{2208}', ' ', '\u{2115}', '}']
}

/// The description of the language of the automaton, started in the state
/// at `start`.
pub open spec fn language_of(a: AutomatonView, start: int) -> Seq<char> {
    description(collected_parts(a, start, a.len() as int))
}

/// Whether two strings are the same.
fn same_text(p: &Vec<char>, q: &Vec<char>) -> (b: bool)
    ensures
        b == (p@ == q@),
{
    if p.len() != q.len() {
        return false;
    }
    let mut i: usize = 0;
    while i < p.len()
        invariant
            p@.len() == q@.len(),
            i <= p@.len(),
            forall|j: int| 0 <= j < i ==> p@[j] == q@[j],
        decreases p.len() - i,
    {
        if p[i] != q[i] {
            return false;
        }
        i += 1;
    }
    assert(p@ =~= q@);
    true
}

/// Whether the list holds the string.
fn holds_text(strings: &Vec<Vec<char>>, wanted: &Vec<char>) -> (b: bool)
    ensures
        b == texts(strings@).contains(wanted@),
{
    let mut i: usize = 0;
    while i < strings.len()
        invariant
            i <= strings.len(),
            forall|j: int| 0 <= j < i ==> texts(strings@)[j] != wanted@,
        decreases strings.len() - i,
    {
        assert(texts(strings@)[i as int] == strings@[i as int]@);
        if same_text(&strings[i], wanted) {
            return true;
        }
        i += 1;
    }
    false
}

/// Adds the strings of `more` behind those of `base`, leaving out every
/// one that is there already.
fn add_unique(base: &mut Vec<Vec<char>>, more: &Vec<Vec<char>>)
    requires
        unique_texts(texts(old(base)@)) == texts(old(base)@),
    ensures
        texts(final(base)@) == unique_texts(texts(old(base)@) + texts(more@)),
        unique_texts(texts(final(base)@)) == texts(final(base)@),
{
    let ghost start = texts(base@);
    let ghost extra = texts(more@);
    let mut i: usize = 0;
    assert(start + extra.subrange(0, 0) =~= start);
    while i < more.len()
        invariant
            i <= more.len(),
            extra == texts(more@),
            texts(base@) == unique_texts(start + extra.subrange(0, i as int)),
        decreases more.len() - i,
    {
        proof {
            let longer = start + extra.subrange(0, i + 1);
            assert(longer.drop_last() =~= start + extra.subrange(0, i as int));
            assert(longer.last() == more@[i as int]@);
        }
        if !holds_text(base, &more[i]) {
            let ghost before = texts(base@);
            let copy = clone_text(&more[i]);
            base.push(copy);
            assert(texts(base@) =~= before.push(more@[i as int]@));
        }
        i += 1;
    }
    proof {
        assert(extra.subrange(0, i as int) == extra);
        lemma_unique_texts_idempotent(start + extra);
    }
}

/// What holds of strings with repetitions left out: leaving repetitions
/// out again changes nothing.
pub proof fn lemma_unique_texts_idempotent(s: Seq<Seq<char>>)
    ensures
        unique_texts(unique_texts(s)) == unique_texts(s),
        forall|x: Seq<char>| unique_texts(s).contains(x) <==> s.contains(x),
    decreases s.len(),
{
    if s.len() > 0 {
        let front = s.drop_last();
        lemma_unique_texts_idempotent(front);
        let u = unique_texts(front);
        assert forall|x: Seq<char>| unique_texts(s).contains(x) <==> s.contains(x) by {
            crate::masks::lemma_push_contains(u, s.last(), x);
            crate::masks::lemma_push_contains(front, s.last(), x);
            assert(front.push(s.last()) == s);
        }
        if !u.contains(s.last()) {
            assert(u.push(s.last()).drop_last() == u);
        }
    }
}

/// The strings read on the paths from state `cur` to state `end` that pass
/// no state flagged in `visited`, added behind the strings in `out`.
fn find_all_paths_to_final_state(
    a: &Automaton,
    cur: usize,
    end: usize,
    consumed: &Vec<char>,
    visited: &Vec<bool>,
    fuel: usize,
    out: &mut Vec<Vec<char>>,
)
    requires
        a.well_formed(),
        cur < a@.len(),
        end < a@.len(),
        visited@.len() == a@.len(),
        fuel + count_true(visited@) >= a@.len(),
    ensures
        texts(final(out)@) == texts(old(out)@) + unvisited_paths(
            a@,
            cur as int,
            end as int,
            consumed@,
            visited@,
            fuel as nat,
        ),
    decreases fuel, a@[cur as int].edges.len() + 1,
{
    let ghost av = a@;
    let ghost before = texts(out@);
    assert(av[cur as int] == a.states@[cur as int]@);
    if cur == end && consumed.len() > 0 {
        out.push(clone_text(consumed));
        assert(texts(out@) =~= before + seq![consumed@]);
        return ;
    }
    let ghost edges = av[cur as int].edges;
    let mut k: usize = 0;
    assert(before + Seq::<Seq<char>>::empty() =~= before);
    while k < a.states[cur].connections.len()
        invariant
            a.well_formed(),
            av == a@,
            cur < av.len(),
            end < av.len(),
            visited@.len() == av.len(),
            fuel + count_true(visited@) >= av.len(),
            edges == av[cur as int].edges,
            edges == a.states@[cur as int].connections@,
            k <= edges.len(),
            texts(out@) + paths_over(av, cur as int, end as int, consumed@, visited@, fuel as nat, k as int)
                == before + paths_over(av, cur as int, end as int, consumed@, visited@, fuel as nat, 0),
        decreases edges.len() - k,
    {
        let edge = a.states[cur].connections[k];
        let ghost so_far = texts(out@);
        let ghost rest = paths_over(av, cur as int, end as int, consumed@, visited@, fuel as nat, k + 1);
        match a.position_of(edge.target) {
            Some(next) => {
                if !visited[next] {
                    proof {
                        lemma_count_true_update(visited@, next as int);
                        lemma_count_true_bound(visited@.update(next as int, true));
                    }
                    let entered = mask_with(visited, next);
                    let mut longer = clone_text(consumed);
                    longer.push(edge.symbol);
                    find_all_paths_to_final_state(a, next, end, &longer, &entered, fuel - 1, out);
                    proof {
                        let here = unvisited_paths(
                            av,
                            next as int,
                            end as int,
                            consumed@.push(edge.symbol),
                            visited@.update(next as int, true),
                            (fuel - 1) as nat,
                        );
                        assert((so_far + here) + rest =~= so_far + (here + rest));
                    }
                } else {
                    assert(so_far + (Seq::<Seq<char>>::empty() + rest) =~= so_far + rest);
                }
            },
            None => {
                assert(so_far + (Seq::<Seq<char>>::empty() + rest) =~= so_far + rest);
            },
        }
        k += 1;
    }
    proof {
        assert(texts(out@) + Seq::<Seq<char>>::empty() =~= texts(out@));
    }
}

/// Sets the mark of the edge at `k` of state `i`.
fn mark_edge(marks: &mut Vec<Vec<bool>>, i: usize, k: usize)
    requires
        i < old(marks)@.len(),
        k < old(marks)@[i as int]@.len(),
    ensures
        rows(final(marks)@) == rows(old(marks)@).update(i as int, rows(old(marks)@)[i as int].update(k as int, true)),
{
    let row = &mut marks[i];
    row.set(k, true);
    assert(rows(marks@) =~= rows(old(marks)@).update(
        i as int,
        rows(old(marks)@)[i as int].update(k as int, true),
    ));
}

/// Whether the marks are shaped like the edges of the automaton.
pub open spec fn marks_fit(a: AutomatonView, marks: Seq<Seq<bool>>) -> bool {
    &&& marks.len() == a.len()
    &&& forall|i: int| 0 <= i < a.len() ==> (#[trigger] marks[i]).len() == a[i].edges.len()
}

/// Whether state `p` has an edge labelled `symbol` to state `cur` that was
/// taken.
fn has_arrived_by(a: &Automaton, marks: &Vec<Vec<bool>>, p: usize, symbol: char, cur: usize) -> (b: bool)
    requires
        p < a@.len(),
        cur < a@.len(),
        marks_fit(a@, rows(marks@)),
    ensures
        b == arrived_by(a@, rows(marks@), p as int, symbol, cur as int),
{
    let ghost av = a@;
    assert(av[p as int] == a.states@[p as int]@);
    assert(av[cur as int] == a.states@[cur as int]@);
    assert(rows(marks@)[p as int] == marks@[p as int]@);
    let target = a.states[cur].position;
    let mut j: usize = 0;
    while j < a.states[p].connections.len()
        invariant
            av == a@,
            p < av.len(),
            marks_fit(av, rows(marks@)),
            av[p as int].edges == a.states@[p as int].connections@,
            rows(marks@)[p as int] == marks@[p as int]@,
            target == av[cur as int].position,
            j <= av[p as int].edges.len(),
            forall|i: int|
                0 <= i < j ==> !(#[trigger] av[p as int].edges[i] == (Edge { symbol, target }) && rows(
                    marks@,
                )[p as int][i]),
        decreases av[p as int].edges.len() - j,
    {
        let e = a.states[p].connections[j];
        if e.symbol == symbol && e.target == target && marks[p][j] {
            assert(av[p as int].edges[j as int] == (Edge { symbol, target: av[cur as int].position }) && rows(
                marks@,
            )[p as int][j as int]);
            return true;
        }
        j += 1;
    }
    false
}

/// The search for the loops back to state `end`, from state `cur`, reached
/// from state `prev`. The strings found are added behind those in `out`,
/// and the edges taken are marked.
fn find_unique_loops_to_given_state(
    a: &Automaton,
    prev: Option<usize>,
    cur: usize,
    end: usize,
    consumed: &Vec<char>,
    marks: &mut Vec<Vec<bool>>,
    fuel: u128,
    out: &mut Vec<Vec<char>>,
)
    requires
        a.well_formed(),
        cur < a@.len(),
        end < a@.len(),
        prev is Some ==> prev->0 < a@.len(),
        marks_fit(a@, rows(old(marks)@)),
        fuel + count_all_true(rows(old(marks)@)) >= total_flags(rows(old(marks)@)),
    ensures
        marks_fit(a@, rows(final(marks)@)),
        total_flags(rows(final(marks)@)) == total_flags(rows(old(marks)@)),
        count_all_true(rows(final(marks)@)) >= count_all_true(rows(old(marks)@)),
        rows(final(marks)@) == loops_from(
            a@,
            match prev {
                Some(p) => Some(p as int),
                None => None,
            },
            cur as int,
            end as int,
            consumed@,
            rows(old(marks)@),
            fuel as nat,
        ).marks,
        texts(final(out)@) == texts(old(out)@) + loops_from(
            a@,
            match prev {
                Some(p) => Some(p as int),
                None => None,
            },
            cur as int,
            end as int,
            consumed@,
            rows(old(marks)@),
            fuel as nat,
        ).found,
    decreases fuel, a@[cur as int].edges.len() + 1,
{
    let ghost av = a@;
    let ghost before = texts(out@);
    let ghost marks_before = rows(marks@);
    let ghost previous: Option<int> = match prev {
        Some(p) => Some(p as int),
        None => None,
    };
    assert(av[cur as int] == a.states@[cur as int]@);
    if cur == end && consumed.len() > 0 {
        out.push(clone_text(consumed));
        assert(texts(out@) =~= before + seq![consumed@]);
        return ;
    }
    let ghost edges = av[cur as int].edges;
    let mut k: usize = 0;
    assert(before + Seq::<Seq<char>>::empty() =~= before);
    while k < a.states[cur].connections.len()
        invariant
            a.well_formed(),
            av == a@,
            cur < av.len(),
            end < av.len(),
            prev is Some ==> prev->0 < av.len(),
            previous == match prev {
                Some(p) => Some(p as int),
                None => None::<int>,
            },
            edges == av[cur as int].edges,
            edges == a.states@[cur as int].connections@,
            k <= edges.len(),
            marks_fit(av, rows(marks@)),
            total_flags(rows(marks@)) == total_flags(marks_before),
            count_all_true(rows(marks@)) >= count_all_true(marks_before),
            fuel + count_all_true(marks_before) >= total_flags(marks_before),
            loops_over(av, previous, cur as int, end as int, consumed@, rows(marks@), fuel as nat, k as int).marks
                == loops_over(av, previous, cur as int, end as int, consumed@, marks_before, fuel as nat, 0).marks,
            texts(out@) + loops_over(
                av,
                previous,
                cur as int,
                end as int,
                consumed@,
                rows(marks@),
                fuel as nat,
                k as int,
            ).found == before + loops_over(
                av,
                previous,
                cur as int,
                end as int,
                consumed@,
                marks_before,
                fuel as nat,
                0,
            ).found,
        decreases edges.len() - k,
    {
        let edge = a.states[cur].connections[k];
        let ghost so_far = texts(out@);
        let ghost now = rows(marks@);
        assert(now[cur as int] == marks@[cur as int]@);
        let mut take: Option<usize> = None;
        match a.position_of(edge.target) {
            Some(next) => {
                let detour = match prev {
                    Some(p) => cur == next && has_arrived_by(a, marks, p, edge.symbol, cur),
                    None => false,
                };
                if !detour && !marks[cur][k] {
                    take = Some(next);
                }
            },
            None => {},
        }
        match take {
            Some(next) => {
                proof {
                    lemma_count_all_true_update(now, cur as int, k as int);
                    lemma_count_all_true_bound(now.update(cur as int, now[cur as int].update(k as int, true)));
                }
                mark_edge(marks, cur, k);
                let ghost marked = rows(marks@);
                let mut longer = clone_text(consumed);
                longer.push(edge.symbol);
                find_unique_loops_to_given_state(a, Some(cur), next, end, &longer, marks, fuel - 1, out);
                proof {
                    let first = loops_from(
                        av,
                        Some(cur as int),
                        next as int,
                        end as int,
                        consumed@.push(edge.symbol),
                        marked,
                        (fuel - 1) as nat,
                    );
                    let rest = loops_over(
                        av,
                        previous,
                        cur as int,
                        end as int,
                        consumed@,
                        first.marks,
                        fuel as nat,
                        k + 1,
                    );
                    assert((so_far + first.found) + rest.found =~= so_far + (first.found + rest.found));
                }
            },
            None => {},
        }
        k += 1;
    }
    proof {
        assert(texts(out@) + Seq::<Seq<char>>::empty() =~= texts(out@));
    }
}

/// A table without marks, shaped like the edges of the automaton.
fn unmarked_edges(a: &Automaton) -> (marks: Vec<Vec<bool>>)
    ensures
        rows(marks@) == no_marks_for(a@),
        marks_fit(a@, rows(marks@)),
        count_all_true(rows(marks@)) <= total_flags(rows(marks@)),
{
    let mut marks: Vec<Vec<bool>> = Vec::new();
    let mut i: usize = 0;
    while i < a.states.len()
        invariant
            i <= a@.len(),
            marks@.len() == i,
            forall|p: int| 0 <= p < i ==> (#[trigger] marks@[p])@ == no_marks_for(a@)[p],
        decreases a.states.len() - i,
    {
        assert(a@[i as int] == a.states@[i as int]@);
        let row = new_mask(a.states[i].connections.len());
        assert(row@ =~= no_marks_for(a@)[i as int]);
        marks.push(row);
        i += 1;
    }
    proof {
        assert(rows(marks@) =~= no_marks_for(a@));
        lemma_count_all_true_bound(rows(marks@));
    }
    marks
}

/// The strings with every repetition of an earlier one left out.
fn unique_strings(strings: &Vec<Vec<char>>) -> (r: Vec<Vec<char>>)
    ensures
        texts(r@) == unique_texts(texts(strings@)),
        unique_texts(texts(r@)) == texts(r@),
{
    let mut r: Vec<Vec<char>> = Vec::new();
    assert(texts(r@) =~= Seq::<Seq<char>>::empty());
    add_unique(&mut r, strings);
    assert(Seq::<Seq<char>>::empty() + texts(strings@) =~= texts(strings@));
    r
}

/// One part of the description: a string, and the loops that can follow.
pub struct AcceptancePath {
    pub direct: Vec<char>,
    pub loops: Vec<Vec<char>>,
}

impl View for AcceptancePath {
    type V = Acceptance;

    open spec fn view(&self) -> Acceptance {
        Acceptance { direct: self.direct@, loops: texts(self.loops@) }
    }
}

/// The views of the parts.
pub open spec fn parts_view(parts: Seq<AcceptancePath>) -> Seq<Acceptance> {
    Seq::new(parts.len(), |i: int| parts[i]@)
}

/// The loops of every part hold no string twice.
pub open spec fn loops_unique(parts: Seq<AcceptancePath>) -> bool {
    forall|i: int| 0 <= i < parts.len() ==> unique_texts(texts((#[trigger] parts[i]).loops@)) == texts(parts[i].loops@)
}

/// Enters a string with its loops into the parts.
fn enter_path(parts: &mut Vec<AcceptancePath>, direct: &Vec<char>, loops: &Vec<Vec<char>>)
    requires
        loops_unique(old(parts)@),
    ensures
        parts_view(final(parts)@) == with_path(parts_view(old(parts)@), direct@, texts(loops@)),
        loops_unique(final(parts)@),
{
    let ghost before = parts_view(parts@);
    let ghost old_parts = parts@;
    let mut found: Option<usize> = None;
    let mut i: usize = 0;
    while i < parts.len() && found.is_none()
        invariant
            i <= parts.len(),
            parts@ == old_parts,
            before == parts_view(parts@),
            found is None ==> part_for(before, direct@) == first_part(before, direct@, i as int),
            found is Some ==> found->0 < parts.len() && part_for(before, direct@) == Some(found->0 as int),
        decreases
            parts.len() - i + if found is None {
                1int
            } else {
                0int
            },
    {
        assert(before[i as int] == parts@[i as int]@);
        if same_text(&parts[i].direct, direct) {
            found = Some(i);
        } else {
            i += 1;
        }
    }
    match found {
        Some(at) => {
            assert(part_for(before, direct@) == Some(at as int));
            assert(before[at as int] == parts@[at as int]@);
            let mut joined: Vec<Vec<char>> = Vec::new();
            assert(texts(joined@) =~= Seq::<Seq<char>>::empty());
            add_unique(&mut joined, &parts[at].loops);
            proof {
                assert(Seq::<Seq<char>>::empty() + texts(parts@[at as int].loops@) =~= texts(
                    parts@[at as int].loops@,
                ));
            }
            add_unique(&mut joined, loops);
            let part = AcceptancePath { direct: clone_text(direct), loops: joined };
            parts.set(at, part);
            proof {
                assert(parts_view(parts@) =~= with_path(before, direct@, texts(loops@)));
                assert forall|j: int| 0 <= j < parts@.len() implies unique_texts(
                    texts((#[trigger] parts@[j]).loops@),
                ) == texts(parts@[j].loops@) by {
                    if j != at {
                        assert(parts@[j] == old_parts[j]);
                    }
                }
            }
        },
        None => {
            let part = AcceptancePath { direct: clone_text(direct), loops: unique_strings(loops) };
            parts.push(part);
            proof {
                assert(part_for(before, direct@) is None);
                assert(parts_view(parts@) =~= with_path(before, direct@, texts(loops@)));
                assert forall|j: int| 0 <= j < parts@.len() implies unique_texts(
                    texts((#[trigger] parts@[j]).loops@),
                ) == texts(parts@[j].loops@) by {
                    if j < old_parts.len() {
                        assert(parts@[j] == old_parts[j]);
                    }
                }
            }
        },
    }
}

/// Enters strings, all with the same loops, into the parts.
fn enter_paths(parts: &mut Vec<AcceptancePath>, paths: &Vec<Vec<char>>, loops: &Vec<Vec<char>>)
    requires
        loops_unique(old(parts)@),
    ensures
        parts_view(final(parts)@) == with_paths(parts_view(old(parts)@), texts(paths@), texts(loops@)),
        loops_unique(final(parts)@),
{
    let ghost before = parts_view(parts@);
    let ghost all = texts(paths@);
    let mut i: usize = 0;
    assert(all.subrange(0, 0) =~= Seq::<Seq<char>>::empty());
    while i < paths.len()
        invariant
            i <= paths.len(),
            all == texts(paths@),
            loops_unique(parts@),
            parts_view(parts@) == with_paths(before, all.subrange(0, i as int), texts(loops@)),
        decreases paths.len() - i,
    {
        proof {
            assert(all.subrange(0, i + 1).drop_last() == all.subrange(0, i as int));
            assert(all.subrange(0, i + 1).last() == paths@[i as int]@);
        }
        enter_path(parts, &paths[i], loops);
        i += 1;
    }
    assert(all.subrange(0, i as int) == all);
}

/// Appends a string.
fn push_all(out: &mut Vec<char>, text: &Vec<char>)
    ensures
        final(out)@ == old(out)@ + text@,
{
    let ghost before = out@;
    let mut i: usize = 0;
    assert(before + text@.subrange(0, 0) =~= before);
    while i < text.len()
        invariant
            i <= text.len(),
            out@ == before + text@.subrange(0, i as int),
        decreases text.len() - i,
    {
        out.push(text[i]);
        assert(out@ =~= before + text@.subrange(0, i + 1));
        i += 1;
    }
    assert(text@.subrange(0, i as int) == text@);
}

/// Appends the strings with ` + ` between them.
fn push_sum(out: &mut Vec<char>, strings: &Vec<Vec<char>>)
    ensures
        final(out)@ == old(out)@ + summed(texts(strings@)),
{
    let ghost before = out@;
    let ghost all = texts(strings@);
    let mut i: usize = 0;
    assert(all.subrange(0, 0) =~= Seq::<Seq<char>>::empty());
    assert(before + Seq::<char>::empty() =~= before);
    while i < strings.len()
        invariant
            i <= strings.len(),
            all == texts(strings@),
            out@ == before + summed(all.subrange(0, i as int)),
        decreases strings.len() - i,
    {
        let ghost part = all.subrange(0, i + 1);
        let ghost so_far = out@;
        proof {
            assert(part.drop_last() == all.subrange(0, i as int));
            assert(part.last() == strings@[i as int]@);
        }
        if i > 0 {
            out.push(' ');
            out.push('+');
            out.push(' ');
            assert(out@ =~= so_far + seq![' ', '+', ' ']);
        } else {
            assert(part[0] == strings@[0]@);
        }
        push_all(out, &strings[i]);
        proof {
            if i > 0 {
                assert(out@ =~= before + (summed(part.drop_last()) + seq![' ', '+', ' '] + part.last()));
            } else {
                assert(summed(part.drop_last()) =~= Seq::<char>::empty());
                assert(out@ =~= before + part[0]);
            }
        }
        i += 1;
    }
    assert(all.subrange(0, i as int) == all);
}

/// One part as it is written.
fn part_string(part: &AcceptancePath) -> (r: Vec<char>)
    ensures
        r@ == part_text(part@),
{
    let mut out = clone_text(&part.direct);
    if part.loops.len() > 0 {
        out.push('(');
        push_sum(&mut out, &part.loops);
        out.push(')');
        out.push('\u{207f}');
        assert(out@ =~= part_text(part@));
    }
    out
}

/// Writes the description down: the sum of the parts in braces, each part
/// its string and, if it has loops, their sum in brackets raised to the
/// power n; behind them the note that n is a natural number.
pub fn convert_acceptance_paths_to_string(acceptance_paths: &Vec<AcceptancePath>) -> (r: String)
    ensures
        r@ == description(parts_view(acceptance_paths@)),
{
    let ghost parts = parts_view(acceptance_paths@);
    let mut written: Vec<Vec<char>> = Vec::new();
    let mut i: usize = 0;
    while i < acceptance_paths.len()
        invariant
            i <= acceptance_paths.len(),
            parts == parts_view(acceptance_paths@),
            written@.len() == i,
            forall|j: int| 0 <= j < i ==> (#[trigger] written@[j])@ == part_text(parts[j]),
        decreases acceptance_paths.len() - i,
    {
        assert(parts[i as int] == acceptance_paths@[i as int]@);
        written.push(part_string(&acceptance_paths[i]));
        i += 1;
    }
    assert(texts(written@) =~= part_texts(parts));
    let mut out: Vec<char> = Vec::new();
    out.push('{');
    push_sum(&mut out, &written);
    let ghost body = out@;
    out.push(' ');
    out.push('|');
    out.push(' ');
    out.push('n');
    out.push(' ');
    out.push('\u{2208}');
    out.push(' ');
    out.push('\u{2115}');
    out.push('}');
    assert(out@ =~= description(parts));
    string_of(&out)
}

/// The number of edges of the automaton.
pub fn count_edges(a: &Automaton) -> (total: u128)
    ensures
        total == edge_count(a@),
{
    let ghost table = no_marks_for(a@);
    let mut total: u128 = 0;
    let mut i: usize = 0;
    assert(table.subrange(0, 0) =~= Seq::<Seq<bool>>::empty());
    while i < a.states.len()
        invariant
            i <= a@.len(),
            table == no_marks_for(a@),
            total == total_flags(table.subrange(0, i as int)),
            total <= i * 0xffff_ffff_ffff_ffff,
        decreases a.states.len() - i,
    {
        assert(a@[i as int] == a.states@[i as int]@);
        proof {
            assert(table.subrange(0, i + 1).drop_last() == table.subrange(0, i as int));
            assert(table.subrange(0, i + 1).last().len() == a.states@[i as int].connections@.len());
            assert((i + 1) * 0xffff_ffff_ffff_ffff == i * 0xffff_ffff_ffff_ffff + 0xffff_ffff_ffff_ffff)
                by (nonlinear_arith);
            assert(i * 0xffff_ffff_ffff_ffff <= 0xffff_ffff_ffff_ffff * 0xffff_ffff_ffff_ffff)
                by (nonlinear_arith)
                requires
                    i <= 0xffff_ffff_ffff_ffff,
            ;
        }
        total = total + a.states[i].connections.len() as u128;
        i += 1;
    }
    assert(table.subrange(0, i as int) == table);
    total
}

/// Describes the language of a deterministic automaton. For every final
/// state, in order, the strings read on the ways from the start state to
/// it that pass no state twice are entered, each with the strings read on
/// the loops at that final state; a start state that is final enters the
/// empty string, written as an epsilon. The description is the sum of
/// these parts.
pub fn determine_language_of_dfa(a: &Automaton, start_state_key: Coordinate) -> (r: String)
    requires
        a.well_formed(),
        targets_present(a@),
        has_key(a@, start_state_key),
    ensures
        r@ == language_of(a@, index_of(a@, start_state_key)),
{
    let n = a.len();
    let ghost av = a@;
    let start = match a.position_of(start_state_key) {
        Some(i) => i,
        None => {
            assert(false);
            return string_of(&Vec::new());
        },
    };
    assert(av[start as int] == a.states@[start as int]@);
    let mut parts: Vec<AcceptancePath> = Vec::new();
    if a.states[start].is_final() {
        let mut empty: Vec<char> = Vec::new();
        empty.push('\u{3b5}');
        parts.push(AcceptancePath { direct: empty, loops: Vec::new() });
        assert(texts(parts@[0].loops@) =~= Seq::<Seq<char>>::empty());
    }
    assert(parts_view(parts@) =~= collected_parts(av, start as int, 0));
    let edges = count_edges(a);
    let mut f: usize = 0;
    while f < n
        invariant
            a.well_formed(),
            av == a@,
            n == av.len(),
            start < n,
            f <= n,
            edges == edge_count(av),
            loops_unique(parts@),
            parts_view(parts@) == collected_parts(av, start as int, f as int),
        decreases n - f,
    {
        assert(av[f as int] == a.states@[f as int]@);
        if a.states[f].is_final() {
            let mut found: Vec<Vec<char>> = Vec::new();
            let none = new_mask(n);
            let visited = mask_with(&none, start);
            let nothing: Vec<char> = Vec::new();
            proof {
                lemma_count_true_update(none@, start as int);
                assert(texts(found@) =~= Seq::<Seq<char>>::empty());
            }
            find_all_paths_to_final_state(a, start, f, &nothing, &visited, n, &mut found);
            proof {
                assert(Seq::<Seq<char>>::empty() + unvisited_paths(
                    av,
                    start as int,
                    f as int,
                    nothing@,
                    visited@,
                    n as nat,
                ) =~= unvisited_paths(av, start as int, f as int, nothing@, visited@, n as nat));
                assert(nothing@ =~= Seq::<char>::empty());
            }
            proof {
                let wanted = only_state(av.len(), start as int);
                assert(visited@ =~= wanted);
                assert(texts(found@) == unvisited_paths(
                    av,
                    start as int,
                    f as int,
                    Seq::<char>::empty(),
                    wanted,
                    av.len(),
                ));
            }
            let direct = unique_strings(&found);
            let mut marks = unmarked_edges(a);
            let mut loops_found: Vec<Vec<char>> = Vec::new();
            assert(texts(loops_found@) =~= Seq::<Seq<char>>::empty());
            loops_back_to(a, f, &nothing, &mut marks, edges, &mut loops_found);
            let loops = unique_strings(&loops_found);
            proof {
                assert(texts(direct@) == direct_paths(av, start as int, f as int));
                assert(texts(loops@) == loops_at(av, f as int));
            }
            enter_paths(&mut parts, &direct, &loops);
        }
        proof {
            assert(collected_parts(av, start as int, f + 1) == if av[f as int].is_final {
                with_paths(
                    collected_parts(av, start as int, f as int),
                    direct_paths(av, start as int, f as int),
                    loops_at(av, f as int),
                )
            } else {
                collected_parts(av, start as int, f as int)
            });
        }
        f += 1;
    }
    convert_acceptance_paths_to_string(&parts)
}

/// The strings read on the loops at the final state `f`.
fn loops_back_to(
    a: &Automaton,
    f: usize,
    nothing: &Vec<char>,
    marks: &mut Vec<Vec<bool>>,
    edges: u128,
    out: &mut Vec<Vec<char>>,
)
    requires
        a.well_formed(),
        f < a@.len(),
        nothing@.len() == 0,
        rows(old(marks)@) == no_marks_for(a@),
        edges == edge_count(a@),
        old(out)@.len() == 0,
    ensures
        texts(final(out)@) == loops_from(a@, None, f as int, f as int, Seq::empty(), no_marks_for(a@), edge_count(a@)).found,
{
    assert(nothing@ =~= Seq::<char>::empty());
    assert(texts(out@) =~= Seq::<Seq<char>>::empty());
    let ghost found = loops_from(a@, None, f as int, f as int, Seq::empty(), no_marks_for(a@), edge_count(a@)).found;
    find_unique_loops_to_given_state(a, None, f, f, nothing, marks, edges, out);
    assert(Seq::<Seq<char>>::empty() + found =~= found);
}

/// Describes the language of an automaton of the given kind: a
/// deterministic one as it is, a nondeterministic one after it was made
/// deterministic.
pub fn determine_language_of_regular_automata(
    a: &Automaton,
    start_state_key: Coordinate,
    type_of_automata: TypeOfAutomata,
) -> (r: String)
    requires
        a.well_formed(),
        targets_present(a@),
        has_key(a@, start_state_key),
    ensures
        type_of_automata == TypeOfAutomata::DFA ==> r@ == language_of(a@, index_of(a@, start_state_key)),
        type_of_automata == TypeOfAutomata::NFA ==> exists|
            folded: AutomatonView,
            sets: Seq<Seq<bool>>,
            d: AutomatonView,
        |
            crate::epsilon::is_epsilon_free_form(a@, folded) && #[trigger] crate::determinization::is_subset_construction(
                folded,
                start_state_key,
                d,
                sets,
            ) && r@ == language_of(d, 0),
{
    match type_of_automata {
        TypeOfAutomata::DFA => determine_language_of_dfa(a, start_state_key),
        TypeOfAutomata::NFA => {
            let (_, d) = convert_nfa_to_dfa(a, start_state_key);
            proof {
                crate::automaton::lemma_index_of_unique(d@, 0);
            }
            let r = determine_language_of_dfa(&d, start_state_key);
            proof {
                let (folded, sets) = choose|folded: AutomatonView, sets: Seq<Seq<bool>>|
                    crate::epsilon::is_epsilon_free_form(a@, folded) && crate::epsilon::epsilon_free(folded)
                        && #[trigger] crate::determinization::is_subset_construction(
                        folded,
                        start_state_key,
                        d@,
                        sets,
                    );
                assert(crate::epsilon::is_epsilon_free_form(a@, folded)
                    && crate::determinization::is_subset_construction(folded, start_state_key, d@, sets) && r@
                    == language_of(d@, 0));
            }
            r
        },
    }
}

} // verus!
