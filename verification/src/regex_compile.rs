//! From the tree of a regular expression to an automaton, and the test of
//! a string against a regular expression.

use crate::automaton::{
    edges_distinct, has_key, index_of, lemma_index_of_unique, targets_present, well_formed, Automaton,
    AutomatonView, Edge, State, StateView, EPSILON,
};
use crate::coordinate::Coordinate;
use crate::determinization::{convert_nfa_to_dfa, expanded, is_empty_mask, is_subset_construction, move_mask};
use crate::epsilon::epsilon_free;
use crate::keys::{
    create_unique_state_coordinates, grid_cell, is_first_free_cell, is_first_free_grid_cell, is_minted_key,
};
use crate::nfa_simulation::{has_edge, nfa_accepts};
use crate::regex_models::{Token, TokenView};
use crate::regex_parsing::{build_parse_tree, parse_tree};
use crate::simulation::{dfa_accepts_from, test_string_dfa};
use crate::text::{char_at, chars_of};
use vstd::prelude::*;

verus! {

/// The keys of the states, in order.
pub open spec fn keys_of_view(a: AutomatonView) -> Seq<Coordinate> {
    Seq::new(a.len(), |i: int| a[i].position)
}

/// The key that is minted when the keys in `taken` are in use.
pub open spec fn minted_key(taken: Seq<Coordinate>) -> Coordinate {
    choose|c: Coordinate| is_minted_key(taken, c)
}

/// The automaton with a new state, neither start nor final, without edges.
pub open spec fn with_state(a: AutomatonView, key: Coordinate) -> AutomatonView {
    a.push(StateView { position: key, is_start: false, is_final: false, edges: Seq::empty() })
}

/// The automaton with one more edge from the state with key `from`.
pub open spec fn with_edge(a: AutomatonView, from: Coordinate, symbol: char, to: Coordinate) -> AutomatonView {
    let i = index_of(a, from);
    let e = Edge { symbol, target: to };
    a.update(
        i,
        StateView {
            position: a[i].position,
            is_start: a[i].is_start,
            is_final: a[i].is_final,
            edges: if a[i].edges.contains(e) {
                a[i].edges
            } else {
                a[i].edges.push(e)
            },
        },
    )
}

/// The automaton with a chain for `text` between two states: a new state
/// behind every character, and an epsilon edge from the last one to `to`.
pub open spec fn chain(a: AutomatonView, from: Coordinate, text: Seq<char>, to: Coordinate) -> AutomatonView
    decreases text.len(),
{
    if text.len() == 0 {
        with_edge(a, from, EPSILON, to)
    } else {
        let key = minted_key(keys_of_view(a));
        chain(with_edge(with_state(a, key), from, text[0], key), key, text.drop_first(), to)
    }
}

/// The automaton with the tree compiled between the states `current` and
/// `end`. A literal becomes a chain. A concatenation gets a new state in
/// the middle, its left operand is compiled up to that state and its right
/// operand from there. Both operands of an alternation are compiled
/// between the same two states. A star gets a new state to loop through,
/// reached from `current` and leading on to `end` by epsilon edges; its
/// operand is compiled from that state back to it. A group, and an
/// operator with an empty slot, add nothing.
pub open spec fn compiled(a: AutomatonView, current: Coordinate, t: TokenView, end: Coordinate) -> AutomatonView
    decreases t,
{
    match t {
        TokenView::Literal(text) => chain(a, current, text, end),
        TokenView::Concatenation(Some(l), Some(r)) => {
            let middle = minted_key(keys_of_view(a));
            compiled(compiled(with_state(a, middle), current, *l, middle), middle, *r, end)
        },
        TokenView::Alternation(Some(l), Some(r)) => compiled(compiled(a, current, *l, end), current, *r, end),
        TokenView::Star(Some(inner)) => {
            let loop_state = minted_key(keys_of_view(a));
            compiled(
                with_edge(with_edge(with_state(a, loop_state), current, EPSILON, loop_state), loop_state, EPSILON, end),
                loop_state,
                *inner,
                loop_state,
            )
        },
        _ => a,
    }
}

/// The key of the start state of the automaton of a regular expression.
pub open spec fn start_key() -> Coordinate {
    Coordinate { x: 300, y: 300 }
}

/// The key of the final state of the automaton of a regular expression.
pub open spec fn end_key() -> Coordinate {
    Coordinate { x: 500, y: 300 }
}

/// The automaton of a regular expression, given its tree: the tree
/// compiled between a start state and a final state.
pub open spec fn thompson(t: TokenView) -> AutomatonView {
    compiled(
        seq![
            StateView { position: start_key(), is_start: true, is_final: false, edges: Seq::empty() },
            StateView { position: end_key(), is_start: false, is_final: true, edges: Seq::empty() },
        ],
        start_key(),
        t,
        end_key(),
    )
}

/// Only one key is minted for given keys in use.
pub proof fn lemma_minted_key_unique(taken: Seq<Coordinate>, c: Coordinate)
    requires
        is_minted_key(taken, c),
    ensures
        minted_key(taken) == c,
{
    let d = minted_key(taken);
    assert(is_minted_key(taken, d));
    if exists|t: int| #[trigger] is_first_free_grid_cell(taken, t) && c == grid_cell(t) {
        let t = choose|t: int| #[trigger] is_first_free_grid_cell(taken, t) && c == grid_cell(t);
        assert(!taken.contains(grid_cell(t)));
        if exists|u: int| #[trigger] is_first_free_grid_cell(taken, u) && d == grid_cell(u) {
            let u = choose|u: int| #[trigger] is_first_free_grid_cell(taken, u) && d == grid_cell(u);
            if u < t {
                assert(taken.contains(grid_cell(u)));
            } else if t < u {
                assert(taken.contains(grid_cell(t)));
            }
        }
    } else {
        let t = choose|t: int| #[trigger] is_first_free_cell(taken, t) && c == crate::keys::any_cell(t);
        if exists|u: int| #[trigger] is_first_free_grid_cell(taken, u) && d == grid_cell(u) {
            let u = choose|u: int| #[trigger] is_first_free_grid_cell(taken, u) && d == grid_cell(u);
            assert(taken.contains(grid_cell(u)));
        } else {
            let u = choose|u: int| #[trigger] is_first_free_cell(taken, u) && d == crate::keys::any_cell(u);
            if u < t {
                assert(taken.contains(crate::keys::any_cell(u)));
            } else if t < u {
                assert(taken.contains(crate::keys::any_cell(t)));
            }
        }
    }
}

/// Mints a key for a new state of the automaton.
fn mint_key(a: &Automaton) -> (key: Coordinate)
    ensures
        key == minted_key(keys_of_view(a@)),
        !has_key(a@, key),
{
    let mut keys: Vec<Coordinate> = Vec::new();
    let mut i: usize = 0;
    while i < a.states.len()
        invariant
            i <= a.states.len(),
            keys@.len() == i,
            forall|j: int| 0 <= j < i ==> keys@[j] == (#[trigger] a@[j]).position,
        decreases a.states.len() - i,
    {
        assert(a@[i as int] == a.states@[i as int]@);
        keys.push(a.states[i].position);
        i += 1;
    }
    assert(keys@ =~= keys_of_view(a@));
    let key = create_unique_state_coordinates(&keys);
    proof {
        lemma_minted_key_unique(keys@, key);
        if has_key(a@, key) {
            let j = choose|j: int| 0 <= j < a@.len() && (#[trigger] a@[j]).position == key;
            assert(keys@[j] == key);
        }
    }
    key
}

/// What adding states and edges keeps: the automaton stays valid, all
/// edges lead to states that are there, and the states that were there
/// keep their place and their key.
pub open spec fn extends(before: AutomatonView, after: AutomatonView) -> bool {
    &&& well_formed(after)
    &&& targets_present(after)
    &&& before.len() <= after.len()
    &&& forall|i: int| 0 <= i < before.len() ==> (#[trigger] after[i]).position == before[i].position
}

/// Keys stay in use when states and edges are added.
proof fn lemma_extends_keeps_key(before: AutomatonView, after: AutomatonView, key: Coordinate)
    requires
        extends(before, after),
        has_key(before, key),
    ensures
        has_key(after, key),
{
    let i = index_of(before, key);
    assert(after[i].position == key);
}

/// Adding after adding is adding.
proof fn lemma_extends_transitive(a: AutomatonView, b: AutomatonView, c: AutomatonView)
    requires
        extends(a, b),
        extends(b, c),
    ensures
        extends(a, c),
{
    assert forall|i: int| 0 <= i < a.len() implies (#[trigger] c[i]).position == a[i].position by {
        assert(b[i].position == a[i].position);
    }
}

/// Adds a state, neither start nor final, without edges.
fn add_state(a: &mut Automaton, key: Coordinate)
    requires
        old(a).well_formed(),
        targets_present(old(a)@),
        !has_key(old(a)@, key),
    ensures
        final(a)@ == with_state(old(a)@, key),
        extends(old(a)@, final(a)@),
        has_key(final(a)@, key),
{
    let ghost before = a@;
    a.insert(State::new(key, false, false));
    proof {
        let after = a@;
        assert(after[before.len() as int].position == key);
        assert forall|i: int, j: int| 0 <= i < after.len() && 0 <= j < after[i].edges.len() implies has_key(
            after,
            (#[trigger] after[i].edges[j]).target,
        ) by {
            assert(after[i] == before[i]);
            assert(has_key(before, before[i].edges[j].target));
            let t = index_of(before, before[i].edges[j].target);
            assert(after[t].position == before[t].position);
        }
    }
}

/// Adds an edge from the state with key `from`, unless it is there.
fn add_edge(a: &mut Automaton, from: Coordinate, symbol: char, to: Coordinate)
    requires
        old(a).well_formed(),
        targets_present(old(a)@),
        has_key(old(a)@, from),
        has_key(old(a)@, to),
    ensures
        final(a)@ == with_edge(old(a)@, from, symbol, to),
        extends(old(a)@, final(a)@),
        final(a)@.len() == old(a)@.len(),
{
    let ghost before = a@;
    let i = match a.position_of(from) {
        Some(i) => i,
        None => {
            assert(false);
            return ;
        },
    };
    assert(before[i as int] == a.states@[i as int]@);
    let mut state = a.states[i].clone();
    state.add_connection(symbol, to);
    let ghost sv = state@;
    a.states.set(i, state);
    proof {
        let after = a@;
        assert(after =~= with_edge(before, from, symbol, to));
        assert forall|p: int, q: int| 0 <= p < q < after.len() implies (#[trigger] after[p]).position != (
        #[trigger] after[q]).position by {
            assert(before[p].position != before[q].position);
        }
        assert forall|p: int| 0 <= p < after.len() implies edges_distinct((#[trigger] after[p]).edges) by {
            if p != i {
                assert(after[p] == before[p]);
            }
        }
        assert forall|p: int, j: int| 0 <= p < after.len() && 0 <= j < after[p].edges.len() implies has_key(
            after,
            (#[trigger] after[p].edges[j]).target,
        ) by {
            let target = after[p].edges[j].target;
            if p != i || j < before[p].edges.len() {
                assert(after[p].edges[j] == before[p].edges[j]);
                assert(has_key(before, before[p].edges[j].target));
            } else {
                assert(target == to);
            }
            let t = index_of(before, target);
            assert(after[t].position == before[t].position);
        }
    }
}

/// Builds the chain for the characters of a literal from `at` on, between
/// the states `from` and `to`.
fn build_chain(a: &mut Automaton, from: Coordinate, text: &Vec<char>, at: usize, to: Coordinate)
    requires
        old(a).well_formed(),
        targets_present(old(a)@),
        has_key(old(a)@, from),
        has_key(old(a)@, to),
        at <= text@.len(),
    ensures
        final(a)@ == chain(old(a)@, from, text@.subrange(at as int, text@.len() as int), to),
        extends(old(a)@, final(a)@),
    decreases text@.len() - at,
{
    let ghost before = a@;
    let ghost rest = text@.subrange(at as int, text@.len() as int);
    if at == text.len() {
        add_edge(a, from, EPSILON, to);
    } else {
        let c = char_at(text, at);
        let key = mint_key(a);
        add_state(a, key);
        let ghost first = a@;
        proof {
            lemma_extends_keeps_key(before, first, from);
            lemma_extends_keeps_key(before, first, to);
        }
        add_edge(a, from, c, key);
        let ghost second = a@;
        proof {
            lemma_extends_keeps_key(first, second, key);
            lemma_extends_keeps_key(first, second, to);
            assert(rest[0] == c);
            assert(rest.drop_first() == text@.subrange(at + 1, text@.len() as int));
        }
        build_chain(a, key, text, at + 1, to);
        proof {
            lemma_extends_transitive(before, first, second);
            lemma_extends_transitive(before, second, a@);
        }
    }
}

/// Compiles the tree between the states `current_state_coords` and
/// `end_state_coords`. A literal becomes a chain of new states, one behind
/// every character, that ends with an epsilon edge. A concatenation gets a
/// new state in the middle. Both operands of an alternation are compiled
/// between the same two states. A star loops through a new state. A
/// group, and an operator with an empty slot, add nothing.
pub fn convert_parse_tree_to_nfa(
    a: &mut Automaton,
    current_state_coords: Coordinate,
    token_to_convert: &Token,
    end_state_coords: Coordinate,
)
    requires
        old(a).well_formed(),
        targets_present(old(a)@),
        has_key(old(a)@, current_state_coords),
        has_key(old(a)@, end_state_coords),
    ensures
        final(a)@ == compiled(old(a)@, current_state_coords, token_to_convert@, end_state_coords),
        extends(old(a)@, final(a)@),
    decreases *token_to_convert, 0int,
{
    let ghost before = a@;
    match token_to_convert {
        Token::Literal(text) => {
            let characters = chars_of(text.as_str());
            assert(characters@.subrange(0, characters@.len() as int) == characters@);
            build_chain(a, current_state_coords, &characters, 0, end_state_coords);
        },
        Token::ConcatenatedExpression(e) => {
            match (&e.left_argument, &e.right_argument) {
                (Some(left), Some(right)) => {
                    let middle = mint_key(a);
                    add_state(a, middle);
                    let ghost first = a@;
                    proof {
                        lemma_extends_keeps_key(before, first, current_state_coords);
                        lemma_extends_keeps_key(before, first, end_state_coords);
                    }
                    convert_parse_tree_to_nfa(a, current_state_coords, left, middle);
                    let ghost second = a@;
                    proof {
                        lemma_extends_keeps_key(first, second, middle);
                        lemma_extends_keeps_key(first, second, end_state_coords);
                    }
                    convert_parse_tree_to_nfa(a, middle, right, end_state_coords);
                    proof {
                        lemma_extends_transitive(before, first, second);
                        lemma_extends_transitive(before, second, a@);
                    }
                },
                _ => {},
            }
        },
        Token::OrOperator(o) => {
            match (&o.left_argument, &o.right_argument) {
                (Some(left), Some(right)) => {
                    convert_parse_tree_to_nfa(a, current_state_coords, left, end_state_coords);
                    let ghost first = a@;
                    proof {
                        lemma_extends_keeps_key(before, first, current_state_coords);
                        lemma_extends_keeps_key(before, first, end_state_coords);
                    }
                    convert_parse_tree_to_nfa(a, current_state_coords, right, end_state_coords);
                    proof {
                        lemma_extends_transitive(before, first, a@);
                    }
                },
                _ => {},
            }
        },
        Token::KleeneOperator(k) => {
            match &k.inner_argument {
                Some(inner) => {
                    let loop_state = mint_key(a);
                    add_state(a, loop_state);
                    let ghost first = a@;
                    proof {
                        lemma_extends_keeps_key(before, first, current_state_coords);
                        lemma_extends_keeps_key(before, first, end_state_coords);
                    }
                    add_edge(a, current_state_coords, EPSILON, loop_state);
                    let ghost second = a@;
                    proof {
                        lemma_extends_keeps_key(first, second, loop_state);
                        lemma_extends_keeps_key(first, second, end_state_coords);
                    }
                    add_edge(a, loop_state, EPSILON, end_state_coords);
                    let ghost third = a@;
                    proof {
                        lemma_extends_keeps_key(second, third, loop_state);
                    }
                    handle_kleene_token_to_nfa_conversion(current_state_coords, a, inner, loop_state);
                    proof {
                        lemma_extends_transitive(before, first, second);
                        lemma_extends_transitive(before, second, third);
                        lemma_extends_transitive(before, third, a@);
                    }
                },
                None => {},
            }
        },
        Token::GroupedExpression(_) => {},
    }
}

/// Compiles the operand of a star. The star has its state to loop
/// through, `current_state_coords`, and the operand is compiled from that
/// state back to it. The state that the star was entered from,
/// `coords_of_state_to_loop_to`, has no part in it.
pub fn handle_kleene_token_to_nfa_conversion(
    coords_of_state_to_loop_to: Coordinate,
    a: &mut Automaton,
    current_token: &Token,
    current_state_coords: Coordinate,
)
    requires
        old(a).well_formed(),
        targets_present(old(a)@),
        has_key(old(a)@, current_state_coords),
    ensures
        final(a)@ == compiled(old(a)@, current_state_coords, current_token@, current_state_coords),
        extends(old(a)@, final(a)@),
    decreases *current_token, 1int,
{
    convert_parse_tree_to_nfa(a, current_state_coords, current_token, current_state_coords);
}

/// A subset construction of an automaton without epsilon edges accepts no
/// string that holds the epsilon symbol.
pub proof fn lemma_subset_rejects_epsilon(
    a: AutomatonView,
    start: Coordinate,
    d: AutomatonView,
    sets: Seq<Seq<bool>>,
    s: int,
    input: Seq<char>,
)
    requires
        is_subset_construction(a, start, d, sets),
        epsilon_free(a),
        0 <= s < d.len(),
        input.contains(EPSILON),
    ensures
        !dfa_accepts_from(d, s, input),
    decreases input.len(),
{
    let p = choose|p: int| 0 <= p < input.len() && input[p] == EPSILON;
    let c = input[0];
    assert(expanded(a, d, sets, s));
    let reached = move_mask(a, sets[s], c);
    if c == EPSILON {
        assert forall|y: int| 0 <= y < reached.len() implies !reached[y] by {
            if reached[y] {
                let x = choose|x: int| 0 <= x < a.len() && sets[s][x] && #[trigger] has_edge(a, x, c, y);
                let e = Edge { symbol: c, target: a[y].position };
                let m = choose|m: int| 0 <= m < a[x].edges.len() && a[x].edges[m] == e;
                assert(a[x].edges[m].symbol != EPSILON);
            }
        }
    } else if !is_empty_mask(reached) {
        let t = choose|t: int|
            0 <= t < d.len() && crate::automaton::first_target(d[s].edges, c) == Some((#[trigger] d[t]).position)
                && sets[t] == reached;
        lemma_index_of_unique(d, t);
        assert(input.drop_first()[p - 1] == EPSILON);
        lemma_subset_rejects_epsilon(a, start, d, sets, t, input.drop_first());
    }
}

/// Tests a string against a regular expression: the expression is parsed,
/// its tree is compiled into an automaton between a start state and a
/// final state, the automaton is made deterministic, and the string is
/// walked. An expression that cannot be parsed matches nothing.
pub fn test_string_regex(regex: &str, string_to_check: &str) -> (matches: bool)
    ensures
        parse_tree(regex@) is Err ==> !matches,
        parse_tree(regex@) is Ok && string_to_check@.contains(EPSILON) ==> !matches,
        parse_tree(regex@) is Ok && !string_to_check@.contains(EPSILON) ==> matches == nfa_accepts(
            thompson(parse_tree(regex@)->Ok_0),
            start_key(),
            string_to_check@,
        ),
{
    let tree = match build_parse_tree(regex) {
        Ok(tree) => tree,
        Err(_) => {
            return false;
        },
    };
    let mut a = Automaton::new();
    let start = Coordinate { x: 300, y: 300 };
    let end = Coordinate { x: 500, y: 300 };
    a.insert(State::new(start, true, false));
    a.insert(State::new(end, false, true));
    proof {
        assert(a@ =~= seq![
            StateView { position: start_key(), is_start: true, is_final: false, edges: Seq::empty() },
            StateView { position: end_key(), is_start: false, is_final: true, edges: Seq::empty() },
        ]);
        assert(a@[0].position == start);
        assert(a@[1].position == end);
    }
    let ghost initial = a@;
    convert_parse_tree_to_nfa(&mut a, start, &tree, end);
    proof {
        lemma_extends_keeps_key(initial, a@, start);
    }
    let (_, d) = convert_nfa_to_dfa(&a, start);
    let (matches, _) = test_string_dfa(&d, start, string_to_check);
    proof {
        if string_to_check@.contains(EPSILON) {
            let (folded, sets) = choose|folded: AutomatonView, sets: Seq<Seq<bool>>|
                crate::epsilon::is_epsilon_free_form(a@, folded) && epsilon_free(folded) && #[trigger] is_subset_construction(
                    folded,
                    start,
                    d@,
                    sets,
                );
            lemma_index_of_unique(d@, 0);
            lemma_subset_rejects_epsilon(folded, start, d@, sets, 0, string_to_check@);
        }
    }
    matches
}

} // verus!
