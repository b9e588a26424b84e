use inner_machinations::automaton::{
    create_state_positions_from_states, Automaton, Edge, State, EPSILON,
};
use inner_machinations::coordinate::Coordinate;
use inner_machinations::determinization::{convert_nfa_to_dfa, reconstruct_nfa_state_positions};
use inner_machinations::epsilon::{epsilon_closure, remove_all_epsilon_transitions};
use inner_machinations::keys::create_unique_state_coordinates;
use inner_machinations::loop_search::find_all_loops_in_state_positions;
use inner_machinations::transitions::RegularAutomataTransition;
use inner_machinations::language::{
    count_edges,
    convert_acceptance_paths_to_string, determine_language_of_dfa,
    determine_language_of_regular_automata, AcceptancePath, TypeOfAutomata,
};
use inner_machinations::minimization::{
    assign_representatives, is_dfa_minimal, mark_unequivalent_states_in_dfa, minimize_dfa,
};
use inner_machinations::nfa_simulation::test_string_nfa;
use inner_machinations::simulation::test_string_dfa;
use inner_machinations::validation::{sanitize_input_alphabet, verify_valid_dfa};

fn at(x: i32, y: i32) -> Coordinate {
    Coordinate::new(x, y)
}

fn automaton(states: Vec<State>) -> Automaton {
    create_state_positions_from_states(states.iter().collect())
}

fn state(x: i32, start: bool, fin: bool, edges: &[(char, i32)]) -> State {
    let mut s = State::new(at(x, x), start, fin);
    for (symbol, target) in edges {
        s.add_connection(*symbol, at(*target, *target));
    }
    s
}

/// Strings over `a` and `b` up to length four.
fn samples() -> Vec<String> {
    let mut all = vec![String::new()];
    let mut last = vec![String::new()];
    for _ in 0..4 {
        let mut next = vec![];
        for s in &last {
            for c in ['a', 'b'] {
                let mut t = s.clone();
                t.push(c);
                next.push(t);
            }
        }
        all.extend(next.iter().cloned());
        last = next;
    }
    all
}

/// Accepts the strings with an even number of `a`; states 1 and 3 behave
/// alike, and so do 0 and 2.
fn even_a_with_spare_states() -> Automaton {
    automaton(vec![
        state(0, true, true, &[('a', 1), ('b', 2)]),
        state(1, false, false, &[('a', 2), ('b', 3)]),
        state(2, false, true, &[('a', 3), ('b', 0)]),
        state(3, false, false, &[('a', 0), ('b', 1)]),
    ])
}

#[test]
fn single_final_start_state_accepts_only_the_empty_string() {
    let a = automaton(vec![state(0, true, true, &[])]);
    assert!(test_string_dfa(&a, at(0, 0), "").0);
    assert!(!test_string_dfa(&a, at(0, 0), "a").0);
}

#[test]
fn walk_returns_the_states_it_passed() {
    let a = automaton(vec![state(0, true, false, &[('a', 1)]), state(1, false, true, &[])]);
    let (accepted, visited) = test_string_dfa(&a, at(0, 0), "a");
    assert!(accepted);
    let keys: Vec<Coordinate> = visited.iter().map(|s| s.get_position()).collect();
    assert_eq!(keys, vec![at(0, 0), at(1, 1)]);
    let (accepted, visited) = test_string_dfa(&a, at(0, 0), "ab");
    assert!(!accepted);
    assert_eq!(visited.len(), 2);
}

#[test]
fn missing_start_state_matches_nothing() {
    let a = automaton(vec![state(0, true, true, &[])]);
    let (accepted, visited) = test_string_dfa(&a, at(9, 9), "");
    assert!(!accepted);
    assert!(visited.is_empty());
    let (accepted, visited) = test_string_nfa(&a, at(9, 9), "");
    assert!(!accepted);
    assert!(visited.is_empty());
}

#[test]
fn states_with_the_same_future_are_merged() {
    let a = even_a_with_spare_states();
    let alphabet = vec!['a', 'b'];
    assert!(verify_valid_dfa(&a, &alphabet));
    assert!(!is_dfa_minimal(&a, &alphabet));
    let (start_index, minimized) = minimize_dfa(&a, &alphabet);
    assert_eq!(minimized.len(), 2);
    assert_eq!(start_index, Some(0));
    assert!(minimized.contains_key(at(0, 0)));
    assert!(minimized.contains_key(at(1, 1)));
    for s in samples() {
        assert_eq!(
            test_string_dfa(&a, at(0, 0), &s).0,
            test_string_dfa(&minimized, at(0, 0), &s).0,
            "on {:?}",
            s
        );
    }
}

#[test]
fn minimized_automaton_is_minimal_and_stays_as_it_is() {
    let a = even_a_with_spare_states();
    let alphabet = vec!['a', 'b'];
    let (_, once) = minimize_dfa(&a, &alphabet);
    assert!(is_dfa_minimal(&once, &alphabet));
    let (_, twice) = minimize_dfa(&once, &alphabet);
    assert_eq!(once.len(), twice.len());
    for s in samples() {
        assert_eq!(
            test_string_dfa(&once, at(0, 0), &s).0,
            test_string_dfa(&twice, at(0, 0), &s).0
        );
    }
}

#[test]
fn start_flag_moves_to_the_state_that_stays() {
    let a = automaton(vec![
        state(0, false, false, &[('a', 2)]),
        state(1, true, false, &[('a', 2)]),
        state(2, false, true, &[('a', 2)]),
    ]);
    let (start_index, minimized) = minimize_dfa(&a, &vec!['a']);
    assert_eq!(minimized.len(), 2);
    assert_eq!(start_index, Some(0));
    assert!(minimized.get(at(0, 0)).unwrap().is_start());
    assert!(test_string_dfa(&minimized, at(0, 0), "a").0);
}

#[test]
fn marks_tell_final_from_other_states() {
    let a = automaton(vec![
        state(0, true, false, &[('a', 1)]),
        state(1, false, true, &[('a', 1)]),
    ]);
    let marks = mark_unequivalent_states_in_dfa(&a, &vec!['a']);
    assert_eq!(marks, vec![vec![false, true], vec![true, false]]);
    assert!(is_dfa_minimal(&a, &vec!['a']));
}

#[test]
fn strict_automaton_needs_every_symbol_once() {
    let a = automaton(vec![state(0, true, true, &[('a', 0)])]);
    assert!(verify_valid_dfa(&a, &vec!['a']));
    assert!(!verify_valid_dfa(&a, &vec!['a', 'b']));
    assert!(!verify_valid_dfa(&a, &vec![]));
    let b = automaton(vec![state(0, true, true, &[('a', 0), ('a', 1)]), state(1, false, false, &[('a', 0)])]);
    assert!(!verify_valid_dfa(&b, &vec!['a']));
}

#[test]
fn alphabet_keeps_single_characters_once_in_order() {
    let cleaned = sanitize_input_alphabet(vec!["b", "a", "ab", "b", "", "c", "\u{3f5}"]);
    assert_eq!(cleaned, vec![String::from("b"), String::from("a"), String::from("c")]);
}

/// Accepts `a*b` with epsilon edges, some of them in a circle.
fn with_epsilon_circle() -> Automaton {
    automaton(vec![
        state(0, true, false, &[(EPSILON, 1)]),
        state(1, false, false, &[(EPSILON, 2), ('a', 1)]),
        state(2, false, false, &[(EPSILON, 0), ('b', 3)]),
        state(3, false, true, &[]),
    ])
}

#[test]
fn nondeterministic_walk_ends_on_epsilon_circles() {
    let a = with_epsilon_circle();
    assert!(test_string_nfa(&a, at(0, 0), "b").0);
    assert!(test_string_nfa(&a, at(0, 0), "aab").0);
    assert!(!test_string_nfa(&a, at(0, 0), "").0);
    assert!(!test_string_nfa(&a, at(0, 0), "ba").0);
    let (accepted, run) = test_string_nfa(&a, at(0, 0), "ab");
    assert!(accepted);
    assert_eq!(run.first().unwrap().get_position(), at(0, 0));
    assert_eq!(run.last().unwrap().get_position(), at(3, 3));
    let (accepted, run) = test_string_nfa(&a, at(0, 0), "a");
    assert!(!accepted);
    assert_eq!(run.len(), 1);
}

#[test]
fn epsilon_closure_follows_the_circle() {
    let a = with_epsilon_circle();
    assert_eq!(epsilon_closure(&a, 0), vec![true, true, true, false]);
    assert_eq!(epsilon_closure(&a, 3), vec![false, false, false, true]);
}

#[test]
fn folding_epsilon_edges_leaves_none() {
    let a = with_epsilon_circle();
    let folded = remove_all_epsilon_transitions(&a);
    assert_eq!(folded.len(), 4);
    for i in 0..4 {
        let s = folded.get(at(i, i)).unwrap();
        assert!(s.get_connections_by_character(EPSILON).is_none());
    }
    let first = folded.get(at(0, 0)).unwrap();
    assert_eq!(first.get_connections_by_character('a'), Some(vec![at(1, 1)]));
    assert_eq!(first.get_connections_by_character('b'), Some(vec![at(3, 3)]));
    assert!(!first.is_final());
    for s in samples() {
        assert_eq!(test_string_nfa(&a, at(0, 0), &s).0, test_string_nfa(&folded, at(0, 0), &s).0);
    }
}

#[test]
fn folding_makes_a_state_final_that_reaches_a_final_one() {
    let a = automaton(vec![state(0, true, false, &[(EPSILON, 1)]), state(1, false, true, &[])]);
    let folded = remove_all_epsilon_transitions(&a);
    assert!(folded.get(at(0, 0)).unwrap().is_final());
}

#[test]
fn deterministic_automaton_accepts_what_the_nondeterministic_one_accepts() {
    let a = with_epsilon_circle();
    let (start_index, d) = convert_nfa_to_dfa(&a, at(0, 0));
    assert_eq!(start_index, Some(0));
    assert_eq!(d.get(at(0, 0)).unwrap().get_position(), at(0, 0));
    for s in samples() {
        assert_eq!(
            test_string_nfa(&a, at(0, 0), &s).0,
            test_string_dfa(&d, at(0, 0), &s).0,
            "on {:?}",
            s
        );
    }
}

#[test]
fn subset_construction_joins_the_targets_of_a_symbol() {
    let a = automaton(vec![
        state(0, true, false, &[('a', 0), ('a', 1), ('b', 0)]),
        state(1, false, true, &[]),
    ]);
    let d = reconstruct_nfa_state_positions(&a, at(0, 0));
    assert_eq!(d.len(), 2);
    let first = d.get(at(0, 0)).unwrap();
    assert_eq!(first.get_connections_by_character('a'), Some(vec![at(300, 300)]));
    assert_eq!(first.get_connections_by_character('b'), Some(vec![at(0, 0)]));
    let second = d.get(at(300, 300)).unwrap();
    assert!(second.is_final());
    assert_eq!(second.get_connections_by_character('a'), Some(vec![at(300, 300)]));
    assert_eq!(second.get_connections_by_character('b'), Some(vec![at(0, 0)]));
}

#[test]
fn strict_automaton_keeps_its_shape_when_made_deterministic() {
    let a = automaton(vec![
        state(0, true, false, &[('a', 1), ('b', 0)]),
        state(1, false, true, &[('a', 1), ('b', 0)]),
    ]);
    let (_, d) = convert_nfa_to_dfa(&a, at(0, 0));
    assert_eq!(d.len(), a.len());
    for s in samples() {
        assert_eq!(test_string_dfa(&a, at(0, 0), &s).0, test_string_dfa(&d, at(0, 0), &s).0);
    }
}

#[test]
fn new_keys_fill_the_grid_row_by_row() {
    let mut taken: Vec<Coordinate> = vec![];
    let expected = [at(300, 300), at(500, 300), at(700, 300), at(900, 300), at(300, 500)];
    for want in expected {
        let key = create_unique_state_coordinates(&taken);
        assert_eq!(key, want);
        taken.push(key);
    }
    let with_gap = vec![at(300, 300), at(700, 300)];
    assert_eq!(create_unique_state_coordinates(&with_gap), at(500, 300));
}

#[test]
fn keys_are_written_and_read() {
    assert_eq!(at(0, 0).to_key(), "0,0");
    assert_eq!(at(-12, 340).to_key(), "-12,340");
    assert_eq!(at(i32::MIN, i32::MAX).to_key(), "-2147483648,2147483647");
    assert_eq!(Coordinate::try_from_key("0,0"), Ok(at(0, 0)));
    assert_eq!(Coordinate::try_from_key(" 300 ,\t-500 "), Ok(at(300, -500)));
    assert_eq!(Coordinate::try_from_key("+7,007"), Ok(at(7, 7)));
    assert_eq!(Coordinate::try_from_key("-2147483648,2147483647"), Ok(at(i32::MIN, i32::MAX)));
    assert_eq!(Coordinate::try_from_key("2147483648,0"), Err(()));
    assert_eq!(Coordinate::try_from_key("1,2,3"), Err(()));
    assert_eq!(Coordinate::try_from_key("12"), Err(()));
    assert_eq!(Coordinate::try_from_key("a,b"), Err(()));
    assert_eq!(Coordinate::try_from_key("1 2,3"), Err(()));
    assert_eq!(Coordinate::try_from_key(",3"), Err(()));
    assert_eq!(Coordinate::try_from_key("-,3"), Err(()));
    for c in [at(0, 0), at(5, -5), at(-99, 1000), at(i32::MAX, i32::MIN)] {
        assert_eq!(Coordinate::try_from_key(&c.to_key()), Ok(c));
    }
    assert_eq!(state(3, false, false, &[]).get_position_as_string(), "3,3");
}

#[test]
fn states_keep_their_edges_as_a_set() {
    let mut s = State::new(at(0, 0), false, false);
    s.add_connection('a', at(1, 1));
    s.add_connection('a', at(1, 1));
    s.add_connection('a', at(2, 2));
    s.add_connection('b', at(1, 1));
    assert_eq!(s.get_all_connections().len(), 3);
    assert_eq!(s.get_all_connected_state_keys(), vec![at(1, 1), at(2, 2)]);
    assert_eq!(s.get_first_connected_state_key_by_character('a'), Some(at(1, 1)));
    assert_eq!(s.get_first_connected_state_key_by_character('c'), None);
    assert_eq!(s.remove_connection_by_character('c', at(1, 1)), Err(()));
    assert_eq!(s.remove_connection_by_character('a', at(1, 1)), Ok(()));
    assert_eq!(s.get_connections_by_character('a'), Some(vec![at(2, 2)]));
    s.remove_all_connections_by_character('a');
    assert_eq!(s.get_connections_by_character('a'), None);
    s.set_all_connections(vec![
        Edge { symbol: 'x', target: at(1, 1) },
        Edge { symbol: 'x', target: at(1, 1) },
    ]);
    assert_eq!(s.get_all_connections().len(), 1);
    assert!(!s.is_final());
    s.make_final();
    assert!(s.is_final());
    assert!(!s.is_start());
    s.make_start();
    assert!(s.is_start());
}

#[test]
fn later_state_with_the_same_key_replaces_the_earlier_one() {
    let first = state(0, false, false, &[]);
    let second = state(0, true, true, &[]);
    let a = create_state_positions_from_states(vec![&first, &second]);
    assert_eq!(a.len(), 1);
    assert!(a.get(at(0, 0)).unwrap().is_final());
}

#[test]
fn language_of_a_path_with_a_loop_at_its_end() {
    let a = automaton(vec![
        state(0, true, false, &[('a', 1)]),
        state(1, false, true, &[('b', 1)]),
    ]);
    assert_eq!(
        determine_language_of_dfa(&a, at(0, 0)),
        "{a(b)\u{207f} | n \u{2208} \u{2115}}"
    );
}

#[test]
fn language_of_a_final_start_state() {
    let a = automaton(vec![state(0, true, true, &[('a', 0)])]);
    assert_eq!(
        determine_language_of_dfa(&a, at(0, 0)),
        "{\u{3b5} | n \u{2208} \u{2115}}"
    );
}

#[test]
fn language_of_two_final_states() {
    let a = automaton(vec![
        state(0, true, false, &[('a', 1), ('b', 2)]),
        state(1, false, true, &[('c', 1), ('d', 1)]),
        state(2, false, true, &[]),
    ]);
    assert_eq!(
        determine_language_of_dfa(&a, at(0, 0)),
        "{a(c + d)\u{207f} + b | n \u{2208} \u{2115}}"
    );
    assert_eq!(
        determine_language_of_regular_automata(
            &a,
            at(0, 0),
            TypeOfAutomata::DFA
        ),
        "{a(c + d)\u{207f} + b | n \u{2208} \u{2115}}"
    );
}

#[test]
fn language_of_a_nondeterministic_automaton_is_that_of_its_deterministic_form() {
    let a = automaton(vec![
        state(0, true, false, &[(EPSILON, 1)]),
        state(1, false, false, &[('a', 2)]),
        state(2, false, true, &[]),
    ]);
    assert_eq!(
        determine_language_of_regular_automata(
            &a,
            at(0, 0),
            TypeOfAutomata::NFA
        ),
        "{a | n \u{2208} \u{2115}}"
    );
}

#[test]
fn description_is_written_from_its_parts() {
    let parts = vec![
        AcceptancePath { direct: vec!['a', 'b'], loops: vec![vec!['c'], vec!['d', 'e']] },
        AcceptancePath { direct: vec!['f'], loops: vec![] },
    ];
    assert_eq!(
        convert_acceptance_paths_to_string(&parts),
        "{ab(c + de)\u{207f} + f | n \u{2208} \u{2115}}"
    );
    assert_eq!(convert_acceptance_paths_to_string(&vec![]), "{ | n \u{2208} \u{2115}}");
}

#[test]
fn validity_checks_find_repeated_keys_and_edges_to_nowhere() {
    let good = even_a_with_spare_states();
    assert!(good.is_well_formed());
    assert!(good.has_all_targets());

    let twice = Automaton {
        states: vec![state(0, true, false, &[]), state(0, false, true, &[])],
    };
    assert!(!twice.is_well_formed());
    assert!(twice.has_all_targets());

    let nowhere = automaton(vec![state(0, true, false, &[('a', 7)])]);
    assert!(nowhere.is_well_formed());
    assert!(!nowhere.has_all_targets());

    let mut repeated = State::new(at(0, 0), true, false);
    repeated.connections = vec![
        Edge { symbol: 'a', target: at(0, 0) },
        Edge { symbol: 'a', target: at(0, 0) },
    ];
    assert!(!repeated.is_well_formed());
    assert!(!Automaton { states: vec![repeated] }.is_well_formed());
}

fn step(from: i32, symbol: &str, to: i32) -> RegularAutomataTransition {
    RegularAutomataTransition::new(&at(from, from).to_key(), symbol, &at(to, to).to_key())
}

#[test]
fn loops_through_every_state_are_spelled_out() {
    let a = automaton(vec![
        state(0, true, false, &[('a', 1)]),
        state(1, false, true, &[('b', 0), ('c', 1)]),
        state(2, false, false, &[]),
    ]);
    let loops = find_all_loops_in_state_positions(&a);
    assert_eq!(loops.len(), 3);
    assert_eq!(loops[0], vec![vec![step(0, "a", 1), step(1, "b", 0)]]);
    assert_eq!(
        loops[1],
        vec![vec![step(1, "b", 0), step(0, "a", 1)], vec![step(1, "b", 0), step(1, "c", 1)]]
    );
    assert!(loops[2].is_empty());
}

#[test]
fn transition_taken_stays_taken_for_the_later_edges_of_the_state() {
    let a = automaton(vec![
        state(0, true, false, &[('a', 1), ('b', 2)]),
        state(1, false, false, &[('c', 0)]),
        state(2, false, false, &[('d', 0)]),
    ]);
    let loops = find_all_loops_in_state_positions(&a);
    assert_eq!(
        loops[0],
        vec![
            vec![step(0, "a", 1), step(1, "c", 0)],
            vec![step(0, "a", 1), step(0, "b", 2), step(2, "d", 0)],
        ]
    );
}

#[test]
fn every_state_has_the_first_state_that_behaves_alike_stand_for_it() {
    let a = even_a_with_spare_states();
    let alphabet = vec!['a', 'b'];
    assert_eq!(assign_representatives(&a, &alphabet), vec![0, 1, 0, 1]);
    let (_, minimized) = minimize_dfa(&a, &alphabet);
    assert_eq!(assign_representatives(&minimized, &alphabet), vec![0, 1]);
}

#[test]
fn edges_are_counted_over_all_states() {
    assert_eq!(count_edges(&even_a_with_spare_states()), 8);
    assert_eq!(count_edges(&Automaton::new()), 0);
}
