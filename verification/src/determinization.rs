//! The subset construction: from a nondeterministic automaton without
//! epsilon edges to a deterministic one whose states stand for sets of
//! states.

use crate::automaton::{
    deterministic, edges_distinct, first_target, has_edge_on, has_key, index_of, keys_distinct, lemma_first_target,
    lemma_index_of_unique, lemma_no_first_target, targets_present, Automaton, AutomatonView, Edge, State,
};
use crate::coordinate::Coordinate;
use crate::epsilon::{
    epsilon_free, is_epsilon_free_form, law_epsilon_elimination_preserves_language,
    lemma_epsilon_free_reaches, lemma_reaches_self, remove_all_epsilon_transitions,
};
use crate::keys::{create_unique_state_coordinates, is_minted_key};
use crate::masks::{lemma_push_contains, new_mask};
use crate::minimization::last_start;
use crate::nfa_simulation::{eps_reaches, has_edge, nfa_accepts, nfa_accepts_from, succeeds_at};
use crate::simulation::{dfa_accepts, dfa_accepts_from, dfa_step};
use crate::text::char_at;
use vstd::prelude::*;

use vstd::set_lib::{lemma_int_range, lemma_len_subset, set_int_range};

verus! {

/// The states that the members of a set reach by reading `symbol`.
pub open spec fn move_mask(a: AutomatonView, members: Seq<bool>, symbol: char) -> Seq<bool> {
    Seq::new(a.len(), |y: int| moved_below(a, members, symbol, a.len() as int, y))
}

/// Whether one of the first `bound` states is a member with an edge
/// labelled `symbol` to state `y`.
pub open spec fn moved_below(a: AutomatonView, members: Seq<bool>, symbol: char, bound: int, y: int) -> bool {
    exists|x: int| 0 <= x < bound && members[x] && #[trigger] has_edge(a, x, symbol, y)
}

/// Whether one of the first `bound` states is a member with an edge
/// labelled `symbol`.
pub open spec fn symbol_below(a: AutomatonView, members: Seq<bool>, bound: int, symbol: char) -> bool {
    exists|x: int| 0 <= x < bound && members[x] && has_edge_on((#[trigger] a[x]).edges, symbol)
}

/// Whether a set, given by its flags, has no member.
pub open spec fn is_empty_mask(members: Seq<bool>) -> bool {
    forall|y: int| 0 <= y < members.len() ==> !members[y]
}

/// Whether some member of the set is a final state.
pub open spec fn holds_final(a: AutomatonView, members: Seq<bool>) -> bool {
    exists|x: int| 0 <= x < a.len() && members[x] && (#[trigger] a[x]).is_final
}

/// Whether state `s` of the constructed automaton is expanded: for every
/// symbol, it has no edge if its members reach nothing by that symbol, and
/// otherwise its first edge with the symbol leads to the state that stands
/// for exactly what its members reach.
pub open spec fn expanded(a: AutomatonView, d: AutomatonView, sets: Seq<Seq<bool>>, s: int) -> bool {
    forall|symbol: char|
        {
            let reached = #[trigger] move_mask(a, sets[s], symbol);
            if is_empty_mask(reached) {
                first_target(d[s].edges, symbol) is None
            } else {
                exists|t: int|
                    0 <= t < d.len() && first_target(d[s].edges, symbol) == Some((#[trigger] d[t]).position)
                        && sets[t] == reached
            }
        }
}

/// Whether `d` is a subset construction of `a` from the state with key
/// `start`, its states standing for the sets `sets`: the first state keeps
/// the start key and stands for the start state alone, a state is final if
/// a member of its set is, and every state is expanded. No set occurs
/// twice, every set but the first is what the members of an earlier set
/// reach by some symbol, and every state but the first has the key that is
/// minted with the keys of the states before it in use.
pub open spec fn is_subset_construction(
    a: AutomatonView,
    start: Coordinate,
    d: AutomatonView,
    sets: Seq<Seq<bool>>,
) -> bool {
    &&& d.len() == sets.len()
    &&& d.len() > 0
    &&& keys_distinct(d)
    &&& has_key(a, start)
    &&& d[0].position == start
    &&& sets[0] == Seq::new(a.len(), |x: int| x == index_of(a, start))
    &&& forall|s: int| 0 <= s < d.len() ==> (#[trigger] sets[s]).len() == a.len()
    &&& forall|s: int| 0 <= s < d.len() ==> ((#[trigger] d[s]).is_final <==> holds_final(a, sets[s]))
    &&& forall|s: int| 0 <= s < d.len() ==> #[trigger] expanded(a, d, sets, s)
    &&& forall|s: int, t: int| 0 <= s < t < sets.len() ==> #[trigger] sets[s] != #[trigger] sets[t]
    &&& forall|t: int| 0 < t < sets.len() ==> #[trigger] is_generated(a, sets, t)
    &&& forall|t: int| 0 < t < d.len() ==> #[trigger] is_minted_after(positions_of(d), t)
}

/// Whether the key of the state at `t` is the one that is minted with the
/// keys of the states before it in use.
pub open spec fn is_minted_after(keys: Seq<Coordinate>, t: int) -> bool {
    is_minted_key(keys.subrange(0, t), keys[t])
}

/// The keys of the states, in order.
pub open spec fn positions_of(d: AutomatonView) -> Seq<Coordinate> {
    Seq::new(d.len(), |i: int| d[i].position)
}

/// Whether the set at `t` is there for a reason: the members of an
/// earlier set reach exactly its members by some symbol, and it has
/// members.
pub open spec fn is_generated(a: AutomatonView, sets: Seq<Seq<bool>>, t: int) -> bool {
    exists|s: int, symbol: char|
        0 <= s < t && sets[t] == #[trigger] move_mask(a, sets[s], symbol) && !is_empty_mask(sets[t])
}

/// The sets as sequences of flags.
pub open spec fn set_views(masks: Seq<Vec<bool>>) -> Seq<Seq<bool>> {
    Seq::new(masks.len(), |i: int| masks[i]@)
}

/// The views of a sequence of states.
pub open spec fn state_views(states: Seq<State>) -> AutomatonView {
    Seq::new(states.len(), |i: int| states[i]@)
}

/// Two to the power `n`.
pub open spec fn two_to(n: nat) -> nat
    decreases n,
{
    if n == 0 {
        1
    } else {
        2 * two_to((n - 1) as nat)
    }
}

/// A set of states as a number: the flags read as binary digits.
pub open spec fn set_code(members: Seq<bool>) -> nat
    decreases members.len(),
{
    if members.len() == 0 {
        0
    } else {
        2 * set_code(members.drop_last()) + if members.last() {
            1nat
        } else {
            0nat
        }
    }
}

proof fn lemma_set_code_bound(members: Seq<bool>)
    ensures
        set_code(members) < two_to(members.len()),
    decreases members.len(),
{
    if members.len() > 0 {
        lemma_set_code_bound(members.drop_last());
    }
}

proof fn lemma_set_code_injective(p: Seq<bool>, q: Seq<bool>)
    requires
        p.len() == q.len(),
        set_code(p) == set_code(q),
    ensures
        p == q,
    decreases p.len(),
{
    if p.len() > 0 {
        lemma_set_code_injective(p.drop_last(), q.drop_last());
        assert(p == p.drop_last().push(p.last()));
        assert(q == q.drop_last().push(q.last()));
    } else {
        assert(p =~= q);
    }
}

/// There are no more different sets of `n` states than two to the `n`.
pub proof fn lemma_distinct_sets_bound(sets: Seq<Seq<bool>>, n: nat)
    requires
        forall|i: int| 0 <= i < sets.len() ==> (#[trigger] sets[i]).len() == n,
        forall|i: int, j: int| 0 <= i < j < sets.len() ==> sets[i] != sets[j],
    ensures
        sets.len() <= two_to(n),
{
    let codes = Seq::new(sets.len(), |i: int| set_code(sets[i]) as int);
    assert forall|i: int, j: int| 0 <= i < codes.len() && 0 <= j < codes.len() && i != j implies codes[i]
        != codes[j] by {
        if codes[i] == codes[j] {
            lemma_set_code_injective(sets[i], sets[j]);
            if i < j {
                assert(sets[i] != sets[j]);
            } else {
                assert(sets[j] != sets[i]);
            }
        }
    }
    codes.unique_seq_to_set();
    lemma_int_range(0, two_to(n) as int);
    assert forall|c: int| codes.to_set().contains(c) implies set_int_range(0, two_to(n) as int).contains(c) by {
        let i = choose|i: int| 0 <= i < codes.len() && codes[i] == c;
        lemma_set_code_bound(sets[i]);
    }
    lemma_len_subset(codes.to_set(), set_int_range(0, two_to(n) as int));
}

/// Whether the edges up to `k` hold one labelled `symbol`.
proof fn lemma_has_edge_on_push(edges: Seq<Edge>, e: Edge, symbol: char)
    ensures
        has_edge_on(edges.push(e), symbol) <==> has_edge_on(edges, symbol) || e.symbol == symbol,
{
    let next = edges.push(e);
    if has_edge_on(next, symbol) {
        let i = choose|i: int| 0 <= i < next.len() && (#[trigger] next[i]).symbol == symbol;
        if i < edges.len() {
            assert(edges[i].symbol == symbol);
        }
    }
    if has_edge_on(edges, symbol) {
        let i = choose|i: int| 0 <= i < edges.len() && (#[trigger] edges[i]).symbol == symbol;
        assert(next[i].symbol == symbol);
    }
    if e.symbol == symbol {
        assert(next[edges.len() as int].symbol == symbol);
    }
}

/// Whether `symbols` holds `symbol`.
fn contains_symbol(symbols: &Vec<char>, symbol: char) -> (b: bool)
    ensures
        b == symbols@.contains(symbol),
{
    let mut i: usize = 0;
    while i < symbols.len()
        invariant
            i <= symbols.len(),
            forall|j: int| 0 <= j < i ==> symbols@[j] != symbol,
        decreases symbols.len() - i,
    {
        if symbols[i] == symbol {
            return true;
        }
        i += 1;
    }
    false
}

/// The symbols on the edges of the members of a set, each once.
fn member_symbols(a: &Automaton, members: &Vec<bool>) -> (symbols: Vec<char>)
    requires
        members@.len() == a@.len(),
    ensures
        symbols@.no_duplicates(),
        forall|c: char| #[trigger] symbols@.contains(c) <==> symbol_below(a@, members@, a@.len() as int, c),
{
    let n = a.len();
    let ghost av = a@;
    let mut symbols: Vec<char> = Vec::new();
    let mut x: usize = 0;
    while x < n
        invariant
            av == a@,
            n == av.len(),
            members@.len() == n,
            x <= n,
            symbols@.no_duplicates(),
            forall|c: char| #[trigger] symbols@.contains(c) <==> symbol_below(av, members@, x as int, c),
        decreases n - x,
    {
        assert(av[x as int] == a.states@[x as int]@);
        let ghost edges = av[x as int].edges;
        if members[x] {
            let mut k: usize = 0;
            while k < a.states[x].connections.len()
                invariant
                    av == a@,
                    n == av.len(),
                    x < n,
                    members@.len() == n,
                    members@[x as int],
                    edges == a.states@[x as int].connections@,
                    edges == av[x as int].edges,
                    k <= edges.len(),
                    symbols@.no_duplicates(),
                    forall|c: char|
                        #[trigger] symbols@.contains(c) <==> symbol_below(av, members@, x as int, c)
                            || has_edge_on(edges.subrange(0, k as int), c),
                decreases edges.len() - k,
            {
                let edge = a.states[x].connections[k];
                let ghost before = symbols@;
                let ghost seen = edges.subrange(0, k as int);
                assert(edges.subrange(0, k + 1) == seen.push(edge));
                let add = !contains_symbol(&symbols, edge.symbol);
                if add {
                    symbols.push(edge.symbol);
                }
                proof {
                    assert forall|c: char|
                        #[trigger] symbols@.contains(c) <==> symbol_below(av, members@, x as int, c)
                            || has_edge_on(edges.subrange(0, k + 1), c) by {
                        lemma_has_edge_on_push(seen, edge, c);
                        if add {
                            lemma_push_contains(before, edge.symbol, c);
                        }
                    }
                }
                k += 1;
            }
            proof {
                assert(edges.subrange(0, k as int) == edges);
            }
        }
        proof {
            assert forall|c: char| #[trigger] symbols@.contains(c) <==> symbol_below(av, members@, x + 1, c) by {
                if symbol_below(av, members@, x + 1, c) {
                    let m = choose|m: int|
                        0 <= m < x + 1 && members@[m] && has_edge_on((#[trigger] av[m]).edges, c);
                    if m < x {
                        assert(symbol_below(av, members@, x as int, c));
                    }
                }
                if symbol_below(av, members@, x as int, c) {
                    let m = choose|m: int| 0 <= m < x && members@[m] && has_edge_on((#[trigger] av[m]).edges, c);
                    assert(0 <= m < x + 1 && members@[m] && has_edge_on(av[m].edges, c));
                }
                if members@[x as int] && has_edge_on(edges, c) {
                    assert(has_edge_on(av[x as int].edges, c));
                }
            }
        }
        x += 1;
    }
    symbols
}

/// The states that the members of a set reach by reading `symbol`.
fn get_all_state_keys_connected_by_vec(a: &Automaton, members: &Vec<bool>, symbol: char) -> (reached: Vec<bool>)
    requires
        a.well_formed(),
        members@.len() == a@.len(),
    ensures
        reached@ == move_mask(a@, members@, symbol),
{
    let n = a.len();
    let ghost av = a@;
    let mut reached = new_mask(n);
    let mut x: usize = 0;
    while x < n
        invariant
            a.well_formed(),
            av == a@,
            n == av.len(),
            members@.len() == n,
            x <= n,
            reached@.len() == n,
            forall|y: int| 0 <= y < n ==> (#[trigger] reached@[y] <==> moved_below(av, members@, symbol, x as int, y)),
        decreases n - x,
    {
        assert(av[x as int] == a.states@[x as int]@);
        let ghost edges = av[x as int].edges;
        if members[x] {
            let mut k: usize = 0;
            while k < a.states[x].connections.len()
                invariant
                    a.well_formed(),
                    av == a@,
                    n == av.len(),
                    x < n,
                    members@.len() == n,
                    members@[x as int],
                    edges == a.states@[x as int].connections@,
                    edges == av[x as int].edges,
                    k <= edges.len(),
                    reached@.len() == n,
                    forall|y: int|
                        0 <= y < n ==> (#[trigger] reached@[y] <==> moved_below(av, members@, symbol, x as int, y)
                            || edges.subrange(0, k as int).contains(
                            Edge { symbol, target: av[y].position },
                        )),
                decreases edges.len() - k,
            {
                let edge = a.states[x].connections[k];
                let ghost before = reached@;
                let ghost seen = edges.subrange(0, k as int);
                assert(edges.subrange(0, k + 1) == seen.push(edge));
                let mut hit: Option<usize> = None;
                if edge.symbol == symbol {
                    hit = a.position_of(edge.target);
                }
                match hit {
                    Some(y0) => {
                        reached.set(y0, true);
                    },
                    None => {},
                }
                proof {
                    assert forall|y: int| 0 <= y < n implies (#[trigger] reached@[y] <==> moved_below(
                        av,
                        members@,
                        symbol,
                        x as int,
                        y,
                    ) || edges.subrange(0, k + 1).contains(Edge { symbol, target: av[y].position })) by {
                        let wanted = Edge { symbol, target: av[y].position };
                        lemma_push_contains(seen, edge, wanted);
                        lemma_index_of_unique(av, y);
                        match hit {
                            Some(y0) => {
                                lemma_index_of_unique(av, y0 as int);
                                if y != y0 {
                                    assert(reached@[y] == before[y]);
                                }
                            },
                            None => {
                                assert(reached@[y] == before[y]);
                            },
                        }
                    }
                }
                k += 1;
            }
            proof {
                assert(edges.subrange(0, k as int) == edges);
            }
        }
        proof {
            assert forall|y: int| 0 <= y < n implies (#[trigger] reached@[y] <==> moved_below(
                av,
                members@,
                symbol,
                x + 1,
                y,
            )) by {
                if moved_below(av, members@, symbol, x + 1, y) {
                    let m = choose|m: int| 0 <= m < x + 1 && members@[m] && #[trigger] has_edge(av, m, symbol, y);
                    if m < x {
                        assert(moved_below(av, members@, symbol, x as int, y));
                    }
                }
                if moved_below(av, members@, symbol, x as int, y) {
                    let m = choose|m: int| 0 <= m < x && members@[m] && #[trigger] has_edge(av, m, symbol, y);
                    assert(0 <= m < x + 1 && members@[m] && has_edge(av, m, symbol, y));
                }
                if members@[x as int] && edges.contains(Edge { symbol, target: av[y].position }) {
                    assert(has_edge(av, x as int, symbol, y));
                }
            }
        }
        x += 1;
    }
    assert(reached@ =~= move_mask(av, members@, symbol));
    reached
}

/// Whether some member of the set is a final state.
fn does_vec_contain_final_state(a: &Automaton, members: &Vec<bool>) -> (b: bool)
    requires
        members@.len() == a@.len(),
    ensures
        b == holds_final(a@, members@),
{
    let mut x: usize = 0;
    while x < a.states.len()
        invariant
            x <= a@.len(),
            members@.len() == a@.len(),
            forall|m: int| 0 <= m < x ==> !(members@[m] && (#[trigger] a@[m]).is_final),
        decreases a.states.len() - x,
    {
        assert(a@[x as int] == a.states@[x as int]@);
        if members[x] && a.states[x].is_final() {
            return true;
        }
        x += 1;
    }
    false
}

/// Whether two sets are the same.
fn masks_equal(p: &Vec<bool>, q: &Vec<bool>) -> (b: bool)
    ensures
        b == (p@ == q@),
{
    if p.len() != q.len() {
        return false;
    }
    let mut i: usize = 0;
    while i < p.len()
        invariant
            p@.len() == q@.len(),
            i <= p@.len(),
            forall|j: int| 0 <= j < i ==> p@[j] == q@[j],
        decreases p.len() - i,
    {
        if p[i] != q[i] {
            return false;
        }
        i += 1;
    }
    assert(p@ =~= q@);
    true
}

/// The position of the set `wanted` among the sets constructed so far.
fn find_mask(masks: &Vec<Vec<bool>>, wanted: &Vec<bool>) -> (r: Option<usize>)
    ensures
        r is Some ==> r->0 < masks@.len() && masks@[r->0 as int]@ == wanted@,
        r is None ==> forall|i: int| 0 <= i < masks@.len() ==> (#[trigger] masks@[i])@ != wanted@,
{
    let mut i: usize = 0;
    while i < masks.len()
        invariant
            i <= masks.len(),
            forall|j: int| 0 <= j < i ==> (#[trigger] masks@[j])@ != wanted@,
        decreases masks.len() - i,
    {
        if masks_equal(&masks[i], wanted) {
            return Some(i);
        }
        i += 1;
    }
    None
}

/// The keys of the given states.
fn keys_of(states: &Vec<State>) -> (keys: Vec<Coordinate>)
    ensures
        keys@.len() == states@.len(),
        forall|i: int| 0 <= i < states@.len() ==> keys@[i] == (#[trigger] states@[i]).position,
{
    let mut keys: Vec<Coordinate> = Vec::new();
    let mut i: usize = 0;
    while i < states.len()
        invariant
            i <= states.len(),
            keys@.len() == i,
            forall|j: int| 0 <= j < i ==> keys@[j] == (#[trigger] states@[j]).position,
        decreases states.len() - i,
    {
        keys.push(states[i].position);
        i += 1;
    }
    keys
}

/// An expanded state stays expanded when states are added behind it, and
/// when other states get their edges.
proof fn lemma_expanded_stable(
    a: AutomatonView,
    d: AutomatonView,
    sets: Seq<Seq<bool>>,
    d2: AutomatonView,
    sets2: Seq<Seq<bool>>,
    s: int,
)
    requires
        expanded(a, d, sets, s),
        0 <= s < d.len(),
        d.len() == sets.len(),
        d2.len() == sets2.len(),
        d2.len() >= d.len(),
        forall|i: int| 0 <= i < d.len() ==> (#[trigger] d2[i]).position == d[i].position,
        forall|i: int| 0 <= i < d.len() ==> #[trigger] sets2[i] == sets[i],
        d2[s].edges == d[s].edges,
    ensures
        expanded(a, d2, sets2, s),
{
    assert forall|symbol: char|
        {
            let reached = #[trigger] move_mask(a, sets2[s], symbol);
            if is_empty_mask(reached) {
                first_target(d2[s].edges, symbol) is None
            } else {
                exists|t: int|
                    0 <= t < d2.len() && first_target(d2[s].edges, symbol) == Some((#[trigger] d2[t]).position)
                        && sets2[t] == reached
            }
        } by {
        let reached = move_mask(a, sets[s], symbol);
        assert(sets2[s] == sets[s]);
        if !is_empty_mask(reached) {
            let t = choose|t: int|
                0 <= t < d.len() && first_target(d[s].edges, symbol) == Some((#[trigger] d[t]).position) && sets[t]
                    == reached;
            assert(d2[t].position == d[t].position);
            assert(sets2[t] == sets[t]);
        }
    }
}

/// What holds while the subset construction runs, with the first `done`
/// states expanded: the states and their sets correspond, keys and sets
/// are all different, the first state is the start, a state is final if a
/// member of its set is, no state has two edges with one symbol, and every
/// edge leads to a state that is there.
#[verifier::opaque]
pub open spec fn under_construction(
    a: AutomatonView,
    start: Coordinate,
    states: Seq<State>,
    masks: Seq<Vec<bool>>,
    done: int,
) -> bool {
    &&& states.len() == masks.len()
    &&& states.len() > 0
    &&& states.len() <= two_to(a.len())
    &&& 0 <= done <= states.len()
    &&& has_key(a, start)
    &&& states[0].position == start
    &&& masks[0]@ == Seq::new(a.len(), |x: int| x == index_of(a, start))
    &&& forall|i: int| 0 <= i < masks.len() ==> (#[trigger] masks[i])@.len() == a.len()
    &&& forall|i: int, j: int| 0 <= i < j < masks.len() ==> (#[trigger] masks[i])@ != (#[trigger] masks[j])@
    &&& forall|i: int, j: int|
        0 <= i < j < states.len() ==> (#[trigger] states[i]).position != (#[trigger] states[j]).position
    &&& forall|i: int| 0 <= i < states.len() ==> ((#[trigger] states[i]).is_final <==> holds_final(a, masks[i]@))
    &&& forall|i: int| 0 <= i < done ==> #[trigger] expanded(a, state_views(states), set_views(masks), i)
    &&& forall|i: int, k: int, l: int|
        0 <= i < states.len() && 0 <= k < l < states[i].connections@.len() ==> (
        #[trigger] states[i].connections@[k]).symbol != (#[trigger] states[i].connections@[l]).symbol
    &&& forall|i: int, k: int|
        0 <= i < states.len() && 0 <= k < states[i].connections@.len() ==> leads_to_state(
            states,
            (#[trigger] states[i].connections@[k]).target,
        )
    &&& forall|t: int| 0 < t < masks.len() ==> #[trigger] is_generated(a, set_views(masks), t)
    &&& forall|t: int| 0 < t < states.len() ==> #[trigger] is_minted_after(positions_of(state_views(states)), t)
}

/// Whether some state has the key `key`.
pub open spec fn leads_to_state(states: Seq<State>, key: Coordinate) -> bool {
    exists|t: int| 0 <= t < states.len() && (#[trigger] states[t]).position == key
}

/// Whether `e` is the edge that the state with the members `members` gets
/// for `symbol`: it carries the symbol, and it leads to the state that
/// stands for what the members reach by it.
pub open spec fn is_edge_for(
    a: AutomatonView,
    states: Seq<State>,
    masks: Seq<Vec<bool>>,
    members: Seq<bool>,
    symbol: char,
    e: Edge,
) -> bool {
    e.symbol == symbol && exists|t: int|
        0 <= t < states.len() && t < masks.len() && (#[trigger] states[t]).position == e.target && masks[t]@
            == move_mask(a, members, symbol)
}

/// The sizes that hold while the construction runs.
proof fn lemma_construction_sizes(
    a: AutomatonView,
    start: Coordinate,
    states: Seq<State>,
    masks: Seq<Vec<bool>>,
    done: int,
)
    requires
        under_construction(a, start, states, masks, done),
    ensures
        states.len() == masks.len(),
        states.len() > 0,
        states.len() <= two_to(a.len()),
        0 <= done <= states.len(),
        forall|i: int| 0 <= i < masks.len() ==> (#[trigger] masks[i])@.len() == a.len(),
{
    reveal(under_construction);
}

/// Adding a state for a set that has none keeps the construction sound.
proof fn lemma_add_state(
    a: AutomatonView,
    start: Coordinate,
    states: Seq<State>,
    masks: Seq<Vec<bool>>,
    done: int,
    state: State,
    mask: Vec<bool>,
)
    requires
        under_construction(a, start, states, masks, done),
        mask@.len() == a.len(),
        forall|i: int| 0 <= i < masks.len() ==> (#[trigger] masks[i])@ != mask@,
        forall|i: int| 0 <= i < states.len() ==> (#[trigger] states[i]).position != state.position,
        state.is_final <==> holds_final(a, mask@),
        state.connections@.len() == 0,
        !is_empty_mask(mask@),
        exists|s: int, symbol: char|
            0 <= s < masks.len() && mask@ == #[trigger] move_mask(a, masks[s]@, symbol),
        is_minted_key(positions_of(state_views(states)), state.position),
    ensures
        under_construction(a, start, states.push(state), masks.push(mask), done),
{
    reveal(under_construction);
    let states2 = states.push(state);
    let masks2 = masks.push(mask);
    assert forall|t: int| 0 < t < states2.len() implies #[trigger] is_minted_after(
        positions_of(state_views(states2)),
        t,
    ) by {
        let keys = positions_of(state_views(states));
        let keys2 = positions_of(state_views(states2));
        assert(keys2.subrange(0, t) =~= keys.subrange(0, t));
        if t < states.len() {
            assert(is_minted_after(keys, t));
            assert(keys2[t] == keys[t]);
        } else {
            assert(keys.subrange(0, t) =~= keys);
        }
    }
    assert forall|t: int| 0 < t < masks2.len() implies #[trigger] is_generated(a, set_views(masks2), t) by {
        if t < masks.len() {
            assert(is_generated(a, set_views(masks), t));
            let (s0, c0) = choose|s: int, symbol: char|
                0 <= s < t && set_views(masks)[t] == #[trigger] move_mask(a, set_views(masks)[s], symbol)
                    && !is_empty_mask(set_views(masks)[t]);
            assert(set_views(masks2)[t] == move_mask(a, set_views(masks2)[s0], c0));
        } else {
            let (s0, c0) = choose|s: int, symbol: char|
                0 <= s < masks.len() && mask@ == #[trigger] move_mask(a, masks[s]@, symbol);
            assert(set_views(masks2)[t] == move_mask(a, set_views(masks2)[s0], c0));
        }
    }
    assert forall|i: int| 0 <= i < done implies #[trigger] expanded(
        a,
        state_views(states2),
        set_views(masks2),
        i,
    ) by {
        assert(expanded(a, state_views(states), set_views(masks), i));
        lemma_expanded_stable(
            a,
            state_views(states),
            set_views(masks),
            state_views(states2),
            set_views(masks2),
            i,
        );
    }
    assert forall|i: int, k: int|
        0 <= i < states2.len() && 0 <= k < states2[i].connections@.len() implies leads_to_state(
        states2,
        (#[trigger] states2[i].connections@[k]).target,
    ) by {
        assert(leads_to_state(states, states[i].connections@[k].target));
        let t = choose|t: int|
            0 <= t < states.len() && (#[trigger] states[t]).position == states[i].connections@[k].target;
        assert(states2[t].position == states[t].position);
    }
    assert forall|i: int, j: int| 0 <= i < j < masks2.len() implies (#[trigger] masks2[i])@ != (
    #[trigger] masks2[j])@ by {
        if j < masks.len() {
            assert(masks[i]@ != masks[j]@);
        }
    }
    assert forall|i: int, j: int| 0 <= i < j < states2.len() implies (#[trigger] states2[i]).position != (
    #[trigger] states2[j]).position by {
        if j < states.len() {
            assert(states[i].position != states[j].position);
        }
    }
    lemma_distinct_sets_bound(set_views(masks2), a.len());
}

/// A symbol on an edge of a member leads the members somewhere.
proof fn lemma_symbol_reaches(a: AutomatonView, members: Seq<bool>, symbol: char)
    requires
        targets_present(a),
        symbol_below(a, members, a.len() as int, symbol),
    ensures
        !is_empty_mask(move_mask(a, members, symbol)),
{
    let reached = move_mask(a, members, symbol);
    let x = choose|x: int| 0 <= x < a.len() && members[x] && has_edge_on((#[trigger] a[x]).edges, symbol);
    let m = choose|m: int| 0 <= m < a[x].edges.len() && (#[trigger] a[x].edges[m]).symbol == symbol;
    assert(has_key(a, a[x].edges[m].target));
    let y = index_of(a, a[x].edges[m].target);
    assert(a[x].edges.contains(Edge { symbol, target: a[y].position })) by {
        assert(a[x].edges[m] == (Edge { symbol, target: a[y].position }));
    }
    assert(has_edge(a, x, symbol, y));
    assert(moved_below(a, members, symbol, a.len() as int, y));
    assert(reached[y]);
}

/// Giving a state the edges for the symbols of its members expands it.
proof fn lemma_expand_state(
    a: AutomatonView,
    start: Coordinate,
    states: Seq<State>,
    masks: Seq<Vec<bool>>,
    w: int,
    symbols: Seq<char>,
    state: State,
)
    requires
        targets_present(a),
        under_construction(a, start, states, masks, w),
        w < states.len(),
        symbols.no_duplicates(),
        forall|c: char| #[trigger] symbols.contains(c) <==> symbol_below(a, masks[w]@, a.len() as int, c),
        state.position == states[w].position,
        state.is_final == states[w].is_final,
        state.connections@.len() == symbols.len(),
        forall|k: int|
            0 <= k < symbols.len() ==> is_edge_for(
                a,
                states,
                masks,
                masks[w]@,
                symbols[k],
                #[trigger] state.connections@[k],
            ),
    ensures
        under_construction(a, start, states.update(w, state), masks, w + 1),
{
    reveal(under_construction);
    let states2 = states.update(w, state);
    let dv = state_views(states2);
    let sv = set_views(masks);
    assert(positions_of(dv) =~= positions_of(state_views(states)));
    let members = masks[w]@;
    let edges = state.connections@;
    let n = a.len();
    assert forall|i: int| 0 <= i < w implies #[trigger] expanded(a, dv, sv, i) by {
        assert(expanded(a, state_views(states), sv, i));
        lemma_expanded_stable(a, state_views(states), sv, dv, sv, i);
    }
    assert forall|k: int| 0 <= k < edges.len() implies (#[trigger] edges[k]).symbol == symbols[k] by {
        assert(is_edge_for(a, states, masks, members, symbols[k], edges[k]));
    }
    assert forall|i: int, k: int, l: int|
        0 <= i < states2.len() && 0 <= k < l < states2[i].connections@.len() implies (
    #[trigger] states2[i].connections@[k]).symbol != (#[trigger] states2[i].connections@[l]).symbol by {
        if i == w {
            assert(edges[k].symbol == symbols[k]);
            assert(edges[l].symbol == symbols[l]);
        } else {
            assert(states2[i] == states[i]);
        }
    }
    assert forall|i: int, k: int|
        0 <= i < states2.len() && 0 <= k < states2[i].connections@.len() implies leads_to_state(
        states2,
        (#[trigger] states2[i].connections@[k]).target,
    ) by {
        if i == w {
            assert(is_edge_for(a, states, masks, members, symbols[k], edges[k]));
            let t = choose|t: int|
                0 <= t < states.len() && t < masks.len() && (#[trigger] states[t]).position == edges[k].target
                    && masks[t]@ == move_mask(a, members, symbols[k]);
            assert(states2[t].position == states[t].position);
        } else {
            assert(states2[i] == states[i]);
            assert(leads_to_state(states, states[i].connections@[k].target));
            let t = choose|t: int|
                0 <= t < states.len() && (#[trigger] states[t]).position == states[i].connections@[k].target;
            assert(states2[t].position == states[t].position);
        }
    }
    assert forall|i: int, j: int| 0 <= i < j < states2.len() implies (#[trigger] states2[i]).position != (
    #[trigger] states2[j]).position by {
        assert(states[i].position != states[j].position);
    }
    assert forall|i: int| 0 <= i < states2.len() implies ((#[trigger] states2[i]).is_final <==> holds_final(
        a,
        masks[i]@,
    )) by {
        assert(states[i].is_final <==> holds_final(a, masks[i]@));
    }
    assert(expanded(a, dv, sv, w)) by {
        assert forall|symbol: char|
            {
                let reached = #[trigger] move_mask(a, sv[w], symbol);
                if is_empty_mask(reached) {
                    first_target(dv[w].edges, symbol) is None
                } else {
                    exists|t: int|
                        0 <= t < dv.len() && first_target(dv[w].edges, symbol) == Some((#[trigger] dv[t]).position)
                            && sv[t] == reached
                }
            } by {
            let reached = move_mask(a, members, symbol);
            assert(sv[w] == members);
            assert(dv[w].edges == edges);
            if symbols.contains(symbol) {
                let k = choose|k: int| 0 <= k < symbols.len() && symbols[k] == symbol;
                assert(edges[k].symbol == symbol);
                assert forall|j: int| 0 <= j < k implies (#[trigger] edges[j]).symbol != symbol by {
                    assert(edges[j].symbol == symbols[j]);
                }
                lemma_first_target(edges, symbol, k);
                assert(is_edge_for(a, states, masks, members, symbols[k], edges[k]));
                let t = choose|t: int|
                    0 <= t < states.len() && t < masks.len() && (#[trigger] states[t]).position == edges[k].target
                        && masks[t]@ == move_mask(a, members, symbols[k]);
                assert(dv[t].position == states[t].position);
                assert(sv[t] == reached);
                // The members do reach something by this symbol.
                let x = choose|x: int| 0 <= x < n && members[x] && has_edge_on((#[trigger] a[x]).edges, symbol);
                let m = choose|m: int| 0 <= m < a[x].edges.len() && (#[trigger] a[x].edges[m]).symbol == symbol;
                assert(has_key(a, a[x].edges[m].target));
                let y = index_of(a, a[x].edges[m].target);
                assert(a[x].edges.contains(Edge { symbol, target: a[y].position })) by {
                    assert(a[x].edges[m] == (Edge { symbol, target: a[y].position }));
                }
                assert(has_edge(a, x, symbol, y));
                assert(moved_below(a, members, symbol, n as int, y));
                assert(reached[y]);
            } else {
                assert forall|j: int| 0 <= j < edges.len() implies (#[trigger] edges[j]).symbol != symbol by {
                    assert(edges[j].symbol == symbols[j]);
                    assert(symbols.contains(symbols[j]));
                }
                lemma_no_first_target(edges, symbol);
                assert forall|y: int| 0 <= y < reached.len() implies !reached[y] by {
                    if reached[y] {
                        let x = choose|x: int| 0 <= x < n && members[x] && #[trigger] has_edge(a, x, symbol, y);
                        let e = Edge { symbol, target: a[y].position };
                        let m = choose|m: int| 0 <= m < a[x].edges.len() && a[x].edges[m] == e;
                        assert(a[x].edges[m].symbol == symbol);
                        assert(has_edge_on(a[x].edges, symbol));
                        assert(symbol_below(a, members, n as int, symbol));
                    }
                }
            }
        }
    }
}

/// The state that stands for the set `reached`: the one that is there, or
/// a new one with a newly minted key.
fn state_for_set(
    a: &Automaton,
    Ghost(start): Ghost<Coordinate>,
    Ghost(done): Ghost<int>,
    Ghost(symbol): Ghost<char>,
    states: &mut Vec<State>,
    masks: &mut Vec<Vec<bool>>,
    reached: Vec<bool>,
) -> (t: usize)
    requires
        under_construction(a@, start, old(states)@, old(masks)@, done),
        reached@.len() == a@.len(),
        0 <= done < old(masks)@.len(),
        reached@ == move_mask(a@, old(masks)@[done]@, symbol),
        !is_empty_mask(reached@),
    ensures
        under_construction(a@, start, final(states)@, final(masks)@, done),
        t < final(states)@.len(),
        final(masks)@[t as int]@ == reached@,
        final(states)@.len() >= old(states)@.len(),
        final(states)@.len() == final(masks)@.len(),
        forall|i: int| 0 <= i < old(states)@.len() ==> #[trigger] final(states)@[i] == old(states)@[i],
        forall|i: int| 0 <= i < old(masks)@.len() ==> #[trigger] final(masks)@[i] == old(masks)@[i],
{
    proof {
        lemma_construction_sizes(a@, start, states@, masks@, done);
    }
    match find_mask(masks, &reached) {
        Some(t) => t,
        None => {
            let keys = keys_of(states);
            let key = create_unique_state_coordinates(&keys);
            let is_final = does_vec_contain_final_state(a, &reached);
            let state = State { position: key, connections: Vec::new(), is_start: false, is_final };
            proof {
                assert forall|i: int| 0 <= i < states@.len() implies (#[trigger] states@[i]).position != key by {
                    assert(keys@[i] == states@[i].position);
                    if states@[i].position == key {
                        assert(keys@.contains(key));
                    }
                }
                assert(reached@ == move_mask(a@, masks@[done]@, symbol));
                assert(keys@ =~= positions_of(state_views(states@)));
                lemma_add_state(a@, start, states@, masks@, done, state, reached);
            }
            states.push(state);
            masks.push(reached);
            states.len() - 1
        },
    }
}

/// The edges of the state at `w`, one for each of the given symbols, each
/// to the state that stands for what the members reach by the symbol.
/// States that are missing are added.
fn edges_for_symbols(
    a: &Automaton,
    Ghost(start): Ghost<Coordinate>,
    w: usize,
    symbols: &Vec<char>,
    states: &mut Vec<State>,
    masks: &mut Vec<Vec<bool>>,
) -> (connections: Vec<Edge>)
    requires
        a.well_formed(),
        targets_present(a@),
        under_construction(a@, start, old(states)@, old(masks)@, w as int),
        w < old(states)@.len(),
        forall|c: char|
            symbols@.contains(c) ==> #[trigger] symbol_below(a@, old(masks)@[w as int]@, a@.len() as int, c),
    ensures
        under_construction(a@, start, final(states)@, final(masks)@, w as int),
        final(states)@.len() >= old(states)@.len(),
        final(states)@.len() == final(masks)@.len(),
        final(states)@[w as int] == old(states)@[w as int],
        final(masks)@[w as int] == old(masks)@[w as int],
        connections@.len() == symbols@.len(),
        forall|k: int|
            0 <= k < symbols@.len() ==> is_edge_for(
                a@,
                final(states)@,
                final(masks)@,
                old(masks)@[w as int]@,
                symbols@[k],
                #[trigger] connections@[k],
            ),
{
    let ghost av = a@;
    let ghost members = masks@[w as int]@;
    let ghost state_before = states@[w as int];
    let ghost mask_before = masks@[w as int];
    let mut connections: Vec<Edge> = Vec::new();
    let mut si: usize = 0;
    proof {
        lemma_construction_sizes(av, start, states@, masks@, w as int);
    }
    while si < symbols.len()
        invariant
            a.well_formed(),
            targets_present(av),
            av == a@,
            forall|c: char| symbols@.contains(c) ==> #[trigger] symbol_below(av, members, av.len() as int, c),
            w < states@.len(),
            states@.len() >= old(states)@.len(),
            states@.len() == masks@.len(),
            under_construction(av, start, states@, masks@, w as int),
            mask_before == masks@[w as int],
            members == mask_before@,
            state_before == states@[w as int],
            si <= symbols@.len(),
            connections@.len() == si,
            forall|k: int|
                0 <= k < si ==> is_edge_for(av, states@, masks@, members, symbols@[k], #[trigger] connections@[k]),
        decreases symbols@.len() - si,
    {
        let symbol = char_at(symbols, si);
        proof {
            lemma_construction_sizes(av, start, states@, masks@, w as int);
        }
        let reached = get_all_state_keys_connected_by_vec(a, &masks[w], symbol);
        let ghost old_states = states@;
        let ghost old_masks = masks@;
        let ghost before = connections@;
        proof {
            assert(symbols@.contains(symbol));
            lemma_symbol_reaches(av, members, symbol);
        }
        let t = state_for_set(a, Ghost(start), Ghost(w as int), Ghost(symbol), states, masks, reached);
        let target = states[t].position;
        let edge = Edge { symbol, target };
        connections.push(edge);
        proof {
            assert forall|k: int| 0 <= k < si + 1 implies is_edge_for(
                av,
                states@,
                masks@,
                members,
                symbols@[k],
                #[trigger] connections@[k],
            ) by {
                if k < si {
                    assert(connections@[k] == before[k]);
                    assert(is_edge_for(av, old_states, old_masks, members, symbols@[k], before[k]));
                    let t0 = choose|t: int|
                        0 <= t < old_states.len() && t < old_masks.len() && (#[trigger] old_states[t]).position
                            == before[k].target && old_masks[t]@ == move_mask(av, members, symbols@[k]);
                    assert(states@[t0] == old_states[t0]);
                    assert(masks@[t0] == old_masks[t0]);
                } else {
                    assert(states@[t as int].position == connections@[k].target);
                }
            }
        }
        si += 1;
    }
    connections
}

/// The subset construction. Starting with the state that stands for the
/// start state alone, under the start key, it expands state after state:
/// for every symbol on the edges of the members, the set of states they
/// reach gets a state of its own, with a newly minted key, unless one
/// stands for that set already; the expanded state gets the one edge with
/// that symbol, to that state. A state is final if one of its members is.
pub fn reconstruct_nfa_state_positions(a: &Automaton, start_state_key: Coordinate) -> (d: Automaton)
    requires
        a.well_formed(),
        targets_present(a@),
        has_key(a@, start_state_key),
    ensures
        d.well_formed(),
        deterministic(d@),
        targets_present(d@),
        exists|sets: Seq<Seq<bool>>| #[trigger] is_subset_construction(a@, start_state_key, d@, sets),
        epsilon_free(a@) ==> forall|input: Seq<char>|
            #[trigger] dfa_accepts(d@, start_state_key, input) == nfa_accepts(a@, start_state_key, input),
{
    let n = a.len();
    let ghost av = a@;
    let start = match a.position_of(start_state_key) {
        Some(i) => i,
        None => {
            assert(false);
            return Automaton::new();
        },
    };
    assert(av[start as int] == a.states@[start as int]@);
    let none = new_mask(n);
    let mut first = none;
    first.set(start, true);
    assert(first@ =~= Seq::new(av.len(), |x: int| x == index_of(av, start_state_key)));
    let mut states: Vec<State> = Vec::new();
    let mut masks: Vec<Vec<bool>> = Vec::new();
    states.push(
        State {
            position: start_state_key,
            connections: Vec::new(),
            is_start: a.states[start].is_start,
            is_final: a.states[start].is_final,
        },
    );
    masks.push(first);
    proof {
        assert(holds_final(av, masks@[0]@) == av[start as int].is_final) by {
            if holds_final(av, masks@[0]@) {
                let x = choose|x: int| 0 <= x < av.len() && masks@[0]@[x] && (#[trigger] av[x]).is_final;
            }
            if av[start as int].is_final {
                assert(masks@[0]@[start as int] && av[start as int].is_final);
            }
        }
        lemma_distinct_sets_bound(set_views(masks@), n as nat);
        assert(under_construction(av, start_state_key, states@, masks@, 0)) by {
            reveal(under_construction);
        }
    }
    let mut w: usize = 0;
    while w < states.len()
        invariant
            a.well_formed(),
            targets_present(av),
            av == a@,
            n == av.len(),
            w <= states@.len(),
            under_construction(av, start_state_key, states@, masks@, w as int),
        decreases two_to(n as nat) - w,
    {
        proof {
            lemma_construction_sizes(av, start_state_key, states@, masks@, w as int);
        }
        let symbols = member_symbols(a, &masks[w]);
        let connections = edges_for_symbols(a, Ghost(start_state_key), w, &symbols, &mut states, &mut masks);
        let expanded_state = State {
            position: states[w].position,
            connections,
            is_start: states[w].is_start,
            is_final: states[w].is_final,
        };
        proof {
            lemma_expand_state(av, start_state_key, states@, masks@, w as int, symbols@, expanded_state);
        }
        states.set(w, expanded_state);
        proof {
            lemma_construction_sizes(av, start_state_key, states@, masks@, w + 1);
        }
        w += 1;
    }
    let d = Automaton { states };
    proof {
        reveal(under_construction);
        let dv = d@;
        let sv = set_views(masks@);
        assert(dv =~= state_views(d.states@));
        assert forall|i: int| 0 <= i < dv.len() implies edges_distinct((#[trigger] dv[i]).edges) by {
            assert forall|k: int, l: int| 0 <= k < l < dv[i].edges.len() implies dv[i].edges[k] != dv[i].edges[l] by {
                assert(d.states@[i].connections@[k].symbol != d.states@[i].connections@[l].symbol);
            }
        }
        assert forall|i: int, k: int, l: int|
            0 <= i < dv.len() && 0 <= k < l < dv[i].edges.len() implies (#[trigger] dv[i].edges[k]).symbol != (
        #[trigger] dv[i].edges[l]).symbol by {
            assert(d.states@[i].connections@[k].symbol != d.states@[i].connections@[l].symbol);
        }
        assert forall|i: int, k: int| 0 <= i < dv.len() && 0 <= k < dv[i].edges.len() implies has_key(
            dv,
            (#[trigger] dv[i].edges[k]).target,
        ) by {
            assert(leads_to_state(d.states@, d.states@[i].connections@[k].target));
            let t0 = choose|t: int|
                0 <= t < d.states@.len() && (#[trigger] d.states@[t]).position == d.states@[i].connections@[k].target;
            assert(dv[t0].position == dv[i].edges[k].target);
        }
        assert forall|i: int, j: int| 0 <= i < j < dv.len() implies (#[trigger] dv[i]).position != (
        #[trigger] dv[j]).position by {
            assert(d.states@[i].position != d.states@[j].position);
        }
        assert forall|s: int| 0 <= s < dv.len() implies ((#[trigger] dv[s]).is_final <==> holds_final(av, sv[s])) by {
            assert(d.states@[s].is_final <==> holds_final(av, masks@[s]@));
        }
        assert(is_subset_construction(av, start_state_key, dv, sv));
        if epsilon_free(av) {
            assert forall|input: Seq<char>|
                #[trigger] dfa_accepts(dv, start_state_key, input) == nfa_accepts(av, start_state_key, input) by {
                law_subset_construction_preserves_language(av, start_state_key, dv, sv, input);
            }
        }
    }
    d
}

/// In an automaton without epsilon edges, accepting from a state is
/// accepting right at it.
pub proof fn lemma_epsilon_free_accepts(a: AutomatonView, x: int, input: Seq<char>)
    requires
        epsilon_free(a),
    ensures
        nfa_accepts_from(a, x, input) <==> 0 <= x < a.len() && succeeds_at(a, x, input),
{
    if nfa_accepts_from(a, x, input) {
        let j = choose|j: int| #[trigger] eps_reaches(a, x, j) && succeeds_at(a, j, input);
        lemma_epsilon_free_reaches(a, x, j);
        crate::epsilon::lemma_reaches_in_range(a, x, j);
    }
    if 0 <= x < a.len() && succeeds_at(a, x, input) {
        lemma_reaches_self(a, x);
    }
}

/// What a state of a subset construction accepts is what the members of
/// its set accept.
pub proof fn lemma_subset_accepts(
    a: AutomatonView,
    start: Coordinate,
    d: AutomatonView,
    sets: Seq<Seq<bool>>,
    s: int,
    input: Seq<char>,
)
    requires
        is_subset_construction(a, start, d, sets),
        epsilon_free(a),
        0 <= s < d.len(),
    ensures
        dfa_accepts_from(d, s, input) <==> exists|x: int|
            0 <= x < a.len() && sets[s][x] && #[trigger] nfa_accepts_from(a, x, input),
    decreases input.len(),
{
    let members = sets[s];
    if input.len() == 0 {
        if d[s].is_final {
            let x = choose|x: int| 0 <= x < a.len() && members[x] && (#[trigger] a[x]).is_final;
            lemma_epsilon_free_accepts(a, x, input);
            assert(0 <= x < a.len() && sets[s][x] && nfa_accepts_from(a, x, input));
        }
        if exists|x: int| 0 <= x < a.len() && sets[s][x] && #[trigger] nfa_accepts_from(a, x, input) {
            let x = choose|x: int| 0 <= x < a.len() && sets[s][x] && #[trigger] nfa_accepts_from(a, x, input);
            lemma_epsilon_free_accepts(a, x, input);
            assert(members[x] && a[x].is_final);
        }
    } else {
        let c = input[0];
        let rest = input.drop_first();
        assert(expanded(a, d, sets, s));
        let reached = move_mask(a, members, c);
        if is_empty_mask(reached) {
            if exists|x: int| 0 <= x < a.len() && sets[s][x] && #[trigger] nfa_accepts_from(a, x, input) {
                let x = choose|x: int| 0 <= x < a.len() && sets[s][x] && #[trigger] nfa_accepts_from(a, x, input);
                lemma_epsilon_free_accepts(a, x, input);
                let k = choose|k: int| #[trigger] has_edge(a, x, c, k) && nfa_accepts_from(a, k, rest);
                assert(moved_below(a, members, c, a.len() as int, k));
                assert(reached[k]);
            }
        } else {
            let t = choose|t: int|
                0 <= t < d.len() && first_target(d[s].edges, c) == Some((#[trigger] d[t]).position) && sets[t]
                    == reached;
            lemma_index_of_unique(d, t);
            assert(dfa_step(d, s, c) == Some(t));
            lemma_subset_accepts(a, start, d, sets, t, rest);
            if dfa_accepts_from(d, s, input) {
                let y = choose|y: int| 0 <= y < a.len() && sets[t][y] && #[trigger] nfa_accepts_from(a, y, rest);
                assert(reached[y]);
                let x = choose|x: int| 0 <= x < a.len() && members[x] && #[trigger] has_edge(a, x, c, y);
                assert(succeeds_at(a, x, input));
                lemma_epsilon_free_accepts(a, x, input);
                assert(0 <= x < a.len() && sets[s][x] && nfa_accepts_from(a, x, input));
            }
            if exists|x: int| 0 <= x < a.len() && sets[s][x] && #[trigger] nfa_accepts_from(a, x, input) {
                let x = choose|x: int| 0 <= x < a.len() && sets[s][x] && #[trigger] nfa_accepts_from(a, x, input);
                lemma_epsilon_free_accepts(a, x, input);
                let k = choose|k: int| #[trigger] has_edge(a, x, c, k) && nfa_accepts_from(a, k, rest);
                assert(moved_below(a, members, c, a.len() as int, k));
                assert(reached[k]);
                assert(0 <= k < a.len() && sets[t][k] && nfa_accepts_from(a, k, rest));
            }
        }
    }
}

/// The subset construction preserves the language: the constructed
/// automaton, walked deterministically, accepts exactly what the automaton
/// without epsilon edges accepts.
pub proof fn law_subset_construction_preserves_language(
    a: AutomatonView,
    start: Coordinate,
    d: AutomatonView,
    sets: Seq<Seq<bool>>,
    input: Seq<char>,
)
    requires
        is_subset_construction(a, start, d, sets),
        epsilon_free(a),
    ensures
        dfa_accepts(d, start, input) == nfa_accepts(a, start, input),
{
    lemma_index_of_unique(d, 0);
    lemma_subset_accepts(a, start, d, sets, 0, input);
    let i = index_of(a, start);
    if dfa_accepts(d, start, input) {
        let x = choose|x: int| 0 <= x < a.len() && sets[0][x] && #[trigger] nfa_accepts_from(a, x, input);
        assert(x == i);
    }
    if nfa_accepts(a, start, input) {
        assert(0 <= i < a.len() && sets[0][i] && nfa_accepts_from(a, i, input));
    }
}

/// The position of the last state that is flagged as a start state.
pub fn start_state_index(a: &Automaton) -> (r: Option<usize>)
    ensures
        r is Some <==> last_start(a@) is Some,
        r is Some ==> r->0 == last_start(a@)->0,
{
    let mut found: Option<usize> = None;
    let mut i: usize = 0;
    while i < a.states.len()
        invariant
            i <= a@.len(),
            found is Some <==> last_start(a@.subrange(0, i as int)) is Some,
            found is Some ==> found->0 == last_start(a@.subrange(0, i as int))->0,
        decreases a.states.len() - i,
    {
        assert(a@[i as int] == a.states@[i as int]@);
        assert(a@.subrange(0, i + 1).drop_last() == a@.subrange(0, i as int));
        if a.states[i].is_start() {
            found = Some(i);
        }
        i += 1;
    }
    assert(a@.subrange(0, i as int) == a@);
    found
}

/// Turns a nondeterministic automaton into a deterministic one: folds the
/// epsilon edges in, then runs the subset construction from the state with
/// key `start_state_position`. Returns the position of the start state in
/// the new automaton, and the new automaton, which accepts every string
/// without the epsilon symbol exactly if the automaton given does.
pub fn convert_nfa_to_dfa(a: &Automaton, start_state_position: Coordinate) -> (r: (Option<usize>, Automaton))
    requires
        a.well_formed(),
        targets_present(a@),
        has_key(a@, start_state_position),
    ensures
        r.1.well_formed(),
        deterministic(r.1@),
        targets_present(r.1@),
        r.1@.len() > 0 && r.1@[0].position == start_state_position,
        r.0 is Some <==> last_start(r.1@) is Some,
        r.0 is Some ==> r.0->0 == last_start(r.1@)->0,
        exists|folded: AutomatonView, sets: Seq<Seq<bool>>|
            is_epsilon_free_form(a@, folded) && epsilon_free(folded) && crate::automaton::well_formed(folded)
                && targets_present(folded) && #[trigger] is_subset_construction(
                folded,
                start_state_position,
                r.1@,
                sets,
            ),
        forall|input: Seq<char>|
            !input.contains(crate::automaton::EPSILON) ==> #[trigger] dfa_accepts(
                r.1@,
                start_state_position,
                input,
            ) == nfa_accepts(a@, start_state_position, input),
{
    let folded = remove_all_epsilon_transitions(a);
    proof {
        let i = index_of(a@, start_state_position);
        assert(folded@[i].position == start_state_position);
    }
    let d = reconstruct_nfa_state_positions(&folded, start_state_position);
    proof {
        assert forall|input: Seq<char>| !input.contains(crate::automaton::EPSILON) implies #[trigger] dfa_accepts(
            d@,
            start_state_position,
            input,
        ) == nfa_accepts(a@, start_state_position, input) by {
            law_epsilon_elimination_preserves_language(a@, folded@, start_state_position, input);
        }
        let sets = choose|sets: Seq<Seq<bool>>| #[trigger]
            is_subset_construction(folded@, start_state_position, d@, sets);
        assert(is_epsilon_free_form(a@, folded@) && epsilon_free(folded@) && crate::automaton::well_formed(
            folded@,
        ) && targets_present(folded@) && is_subset_construction(folded@, start_state_position, d@, sets));
    }
    let index = start_state_index(&d);
    (index, d)
}

} // verus!
