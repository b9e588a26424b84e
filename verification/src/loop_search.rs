//! Every loop through a state, spelled out transition by transition.

use crate::automaton::{has_key, index_of, targets_present, Automaton, AutomatonView};
use crate::coordinate::key_text;
use crate::language::{count_edges, edge_count};
use crate::text::string_of;
use crate::transitions::{transition_views, RegularAutomataTransition, TransitionView};
use vstd::prelude::*;

verus! {

/// The transition that edge `k` of state `cur` stands for.
pub open spec fn transition_of(a: AutomatonView, cur: int, k: int) -> TransitionView {
    TransitionView {
        start: key_text(a[cur].position),
        symbol: seq![a[cur].edges[k].symbol],
        end: key_text(a[cur].edges[k].target),
    }
}

/// The views of a list of sequences of transitions.
pub open spec fn loop_views(loops: Seq<Vec<RegularAutomataTransition>>) -> Seq<Seq<TransitionView>> {
    Seq::new(loops.len(), |i: int| transition_views(loops[i]@))
}

/// What a search for the loops back to state `end` records from state
/// `cur` on, after the transitions `taken`. Where the search stands at
/// `end` with a transition taken, it records the transitions taken and goes
/// no further. Elsewhere it goes through the edges of the state in order
/// and follows each one that was not taken before; a transition taken
/// stays taken for the edges that come after it at the same state. `fuel`
/// bounds the number of transitions that are followed one after another.
pub open spec fn loops_through(
    a: AutomatonView,
    cur: int,
    end: int,
    taken: Seq<TransitionView>,
    fuel: nat,
) -> Seq<Seq<TransitionView>>
    decreases fuel, a[cur].edges.len() + 1,
{
    if cur == end && taken.len() > 0 {
        seq![taken]
    } else {
        loops_through_over(a, cur, end, taken, fuel, 0)
    }
}

/// The search over the edges of state `cur` from the one at `k` on.
pub open spec fn loops_through_over(
    a: AutomatonView,
    cur: int,
    end: int,
    taken: Seq<TransitionView>,
    fuel: nat,
    k: int,
) -> Seq<Seq<TransitionView>>
    decreases fuel, a[cur].edges.len() - k,
{
    if k < 0 || k >= a[cur].edges.len() {
        Seq::empty()
    } else {
        let t = transition_of(a, cur, k);
        if taken.contains(t) || fuel == 0 {
            loops_through_over(a, cur, end, taken, fuel, k + 1)
        } else {
            loops_through(a, index_of(a, a[cur].edges[k].target), end, taken.push(t), (fuel - 1) as nat)
                + loops_through_over(a, cur, end, taken.push(t), fuel, k + 1)
        }
    }
}

/// The sequences with every repetition of an earlier one left out.
pub open spec fn unique_loops(s: Seq<Seq<TransitionView>>) -> Seq<Seq<TransitionView>>
    decreases s.len(),
{
    if s.len() == 0 {
        Seq::empty()
    } else {
        let front = unique_loops(s.drop_last());
        if front.contains(s.last()) {
            front
        } else {
            front.push(s.last())
        }
    }
}

/// The loops through state `i`: what the search from the state back to
/// itself records, each sequence once. The search can follow as many
/// transitions one after another as the automaton has edges.
pub open spec fn loops_of(a: AutomatonView, i: int) -> Seq<Seq<TransitionView>> {
    unique_loops(loops_through(a, i, i, Seq::empty(), edge_count(a)))
}

/// A copy of the transitions.
fn clone_transitions(ts: &Vec<RegularAutomataTransition>) -> (r: Vec<RegularAutomataTransition>)
    ensures
        transition_views(r@) == transition_views(ts@),
{
    let mut r: Vec<RegularAutomataTransition> = Vec::new();
    let mut i: usize = 0;
    while i < ts.len()
        invariant
            i <= ts.len(),
            r@.len() == i,
            forall|j: int| 0 <= j < i ==> (#[trigger] r@[j])@ == ts@[j]@,
        decreases ts.len() - i,
    {
        r.push(ts[i].clone());
        i += 1;
    }
    assert(transition_views(r@) =~= transition_views(ts@));
    r
}

/// Whether `t` is among the transitions.
fn holds_transition(ts: &Vec<RegularAutomataTransition>, t: &RegularAutomataTransition) -> (b: bool)
    ensures
        b == transition_views(ts@).contains(t@),
{
    let mut i: usize = 0;
    while i < ts.len()
        invariant
            i <= ts.len(),
            forall|j: int| 0 <= j < i ==> (#[trigger] transition_views(ts@)[j]) != t@,
        decreases ts.len() - i,
    {
        if ts[i].same_as(t) {
            assert(transition_views(ts@)[i as int] == t@);
            return true;
        }
        i += 1;
    }
    false
}

/// Whether two sequences hold the same transitions in the same order.
fn same_transitions(x: &Vec<RegularAutomataTransition>, y: &Vec<RegularAutomataTransition>) -> (b: bool)
    ensures
        b == (transition_views(x@) == transition_views(y@)),
{
    if x.len() != y.len() {
        assert(transition_views(x@).len() != transition_views(y@).len());
        return false;
    }
    let mut i: usize = 0;
    while i < x.len()
        invariant
            i <= x.len(),
            x.len() == y.len(),
            forall|j: int| 0 <= j < i ==> (#[trigger] x@[j])@ == y@[j]@,
        decreases x.len() - i,
    {
        if !x[i].same_as(&y[i]) {
            assert(transition_views(x@)[i as int] != transition_views(y@)[i as int]);
            return false;
        }
        i += 1;
    }
    assert(transition_views(x@) =~= transition_views(y@));
    true
}

/// Whether the sequence `l` is among `loops`.
fn holds_loop(loops: &Vec<Vec<RegularAutomataTransition>>, l: &Vec<RegularAutomataTransition>) -> (b: bool)
    ensures
        b == loop_views(loops@).contains(transition_views(l@)),
{
    let mut i: usize = 0;
    while i < loops.len()
        invariant
            i <= loops.len(),
            forall|j: int| 0 <= j < i ==> (#[trigger] loop_views(loops@)[j]) != transition_views(l@),
        decreases loops.len() - i,
    {
        if same_transitions(&loops[i], l) {
            assert(loop_views(loops@)[i as int] == transition_views(l@));
            return true;
        }
        i += 1;
    }
    false
}

/// The sequences with every repetition of an earlier one left out.
fn unique_loop_list(found: &Vec<Vec<RegularAutomataTransition>>) -> (r: Vec<Vec<RegularAutomataTransition>>)
    ensures
        loop_views(r@) == unique_loops(loop_views(found@)),
{
    let ghost all = loop_views(found@);
    let mut r: Vec<Vec<RegularAutomataTransition>> = Vec::new();
    let mut i: usize = 0;
    assert(loop_views(r@) =~= Seq::<Seq<TransitionView>>::empty());
    assert(all.subrange(0, 0) =~= Seq::<Seq<TransitionView>>::empty());
    while i < found.len()
        invariant
            i <= found.len(),
            all == loop_views(found@),
            loop_views(r@) == unique_loops(all.subrange(0, i as int)),
        decreases found.len() - i,
    {
        proof {
            let longer = all.subrange(0, i + 1);
            assert(longer.drop_last() =~= all.subrange(0, i as int));
            assert(longer.last() == transition_views(found@[i as int]@));
        }
        if !holds_loop(&r, &found[i]) {
            let ghost before = loop_views(r@);
            let copy = clone_transitions(&found[i]);
            r.push(copy);
            assert(loop_views(r@) =~= before.push(transition_views(found@[i as int]@)));
        }
        i += 1;
    }
    assert(all.subrange(0, i as int) == all);
    r
}

/// The transition that edge `k` of state `cur` stands for.
fn transition_at(a: &Automaton, cur: usize, k: usize) -> (t: RegularAutomataTransition)
    requires
        cur < a@.len(),
        k < a@[cur as int].edges.len(),
    ensures
        t@ == transition_of(a@, cur as int, k as int),
{
    assert(a@[cur as int] == a.states@[cur as int]@);
    let edge = a.states[cur].connections[k];
    let from = a.states[cur].position.to_key();
    let to = edge.target.to_key();
    let mut label: Vec<char> = Vec::new();
    label.push(edge.symbol);
    let symbol = string_of(&label);
    assert(symbol@ =~= seq![edge.symbol]);
    RegularAutomataTransition::new(from.as_str(), symbol.as_str(), to.as_str())
}

/// Searches for the loops back to the state at `target` from the state at
/// `current`, after the transitions `transitions_taken`, and adds what it
/// records behind the sequences in `out`.
pub fn find_loops(
    a: &Automaton,
    current: usize,
    target: usize,
    transitions_taken: Vec<RegularAutomataTransition>,
    fuel: u128,
    out: &mut Vec<Vec<RegularAutomataTransition>>,
)
    requires
        a.well_formed(),
        targets_present(a@),
        current < a@.len(),
        target < a@.len(),
    ensures
        loop_views(final(out)@) == loop_views(old(out)@) + loops_through(
            a@,
            current as int,
            target as int,
            transition_views(transitions_taken@),
            fuel as nat,
        ),
    decreases fuel, a@[current as int].edges.len() + 1,
{
    let ghost av = a@;
    let ghost before = loop_views(out@);
    let ghost taken_before = transition_views(transitions_taken@);
    assert(av[current as int] == a.states@[current as int]@);
    let mut taken = transitions_taken;
    if current == target && taken.len() > 0 {
        out.push(taken);
        assert(loop_views(out@) =~= before + seq![taken_before]);
        return ;
    }
    let mut k: usize = 0;
    while k < a.states[current].connections.len()
        invariant
            a.well_formed(),
            targets_present(av),
            av == a@,
            current < av.len(),
            target < av.len(),
            av[current as int].edges == a.states@[current as int].connections@,
            k <= av[current as int].edges.len(),
            loop_views(out@) + loops_through_over(
                av,
                current as int,
                target as int,
                transition_views(taken@),
                fuel as nat,
                k as int,
            ) == before + loops_through_over(av, current as int, target as int, taken_before, fuel as nat, 0),
        decreases av[current as int].edges.len() - k,
    {
        let t = transition_at(a, current, k);
        let ghost so_far = loop_views(out@);
        let ghost now = transition_views(taken@);
        let ghost rest_here = loops_through_over(av, current as int, target as int, now, fuel as nat, k as int);
        if fuel > 0 && !holds_transition(&taken, &t) {
            let edge = a.states[current].connections[k];
            assert(has_key(av, av[current as int].edges[k as int].target));
            match a.position_of(edge.target) {
                Some(next) => {
                    taken.push(t);
                    assert(transition_views(taken@) =~= now.push(t@));
                    let copy = clone_transitions(&taken);
                    find_loops(a, next, target, copy, (fuel - 1) as u128, out);
                    proof {
                        let first = loops_through(av, next as int, target as int, now.push(t@), (fuel - 1) as nat);
                        let rest = loops_through_over(
                            av,
                            current as int,
                            target as int,
                            now.push(t@),
                            fuel as nat,
                            k + 1,
                        );
                        assert(rest_here == first + rest);
                        assert(loop_views(out@) + rest =~= so_far + rest_here);
                    }
                },
                None => {
                    assert(false);
                },
            }
        }
        k += 1;
    }
    assert(loop_views(out@) + Seq::<Seq<TransitionView>>::empty() =~= loop_views(out@));
}

/// The loops through every state: position `i` of the result holds those
/// through the state at `i`.
pub fn find_all_loops_in_state_positions(a: &Automaton) -> (r: Vec<Vec<Vec<RegularAutomataTransition>>>)
    requires
        a.well_formed(),
        targets_present(a@),
    ensures
        r@.len() == a@.len(),
        forall|i: int| 0 <= i < r@.len() ==> loop_views((#[trigger] r@[i])@) == loops_of(a@, i),
{
    let fuel = count_edges(a);
    let mut r: Vec<Vec<Vec<RegularAutomataTransition>>> = Vec::new();
    let mut i: usize = 0;
    while i < a.len()
        invariant
            a.well_formed(),
            targets_present(a@),
            fuel == edge_count(a@),
            i <= a@.len(),
            r@.len() == i,
            forall|j: int| 0 <= j < i ==> loop_views((#[trigger] r@[j])@) == loops_of(a@, j),
        decreases a@.len() - i,
    {
        let mut found: Vec<Vec<RegularAutomataTransition>> = Vec::new();
        let nothing: Vec<RegularAutomataTransition> = Vec::new();
        assert(transition_views(nothing@) =~= Seq::<TransitionView>::empty());
        assert(loop_views(found@) =~= Seq::<Seq<TransitionView>>::empty());
        find_loops(a, i, i, nothing, fuel, &mut found);
        assert(loop_views(found@) =~= loops_through(a@, i as int, i as int, Seq::empty(), fuel as nat));
        r.push(unique_loop_list(&found));
        i += 1;
    }
    r
}

} // verus!
