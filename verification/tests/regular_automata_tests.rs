use inner_machinations::automaton::{create_state_positions_from_states, State};
use inner_machinations::coordinate::Coordinate;
use inner_machinations::simulation::test_string_dfa;
use inner_machinations::transitions::{LoopHandling, LoopingTransitionErrors, RegularAutomataTransition};

fn key(text: &str) -> Coordinate {
    Coordinate::try_from_key(text).unwrap()
}

#[test]
fn test_dfa_string_checking() {
    let mut state_positions;

    let s1 = State::new(key("0,0"), true, true);

    state_positions = create_state_positions_from_states(vec![&s1]);

    assert!(test_string_dfa(&state_positions, key("0,0"), "").0);

    let s1 = State::new(key("0,0"), true, false);

    state_positions = create_state_positions_from_states(vec![&s1]);

    assert!(!test_string_dfa(&state_positions, key("0,0"), "").0);

    let mut s1 = State::new(key("0,0"), true, false);
    let s2 = State::new(key("1,1"), false, true);

    s1.add_connection('a', key("1,1"));

    state_positions = create_state_positions_from_states(vec![&s1, &s2]);

    assert!(test_string_dfa(&state_positions, key("0,0"), "a").0);
    assert!(!test_string_dfa(&state_positions, key("0,0"), "").0);
    assert!(!test_string_dfa(&state_positions, key("0,0"), "aa").0);
    assert!(!test_string_dfa(&state_positions, key("0,0"), "b").0);
}

#[test]
fn test_transition_looping_validation() {
    let transitions = vec![
        RegularAutomataTransition::new("1,1", "a", "2,2"),
        RegularAutomataTransition::new("2,2", "a", "3,3"),
    ];

    assert_eq!(
        transitions.do_transitions_form_valid_loop(),
        Err(LoopingTransitionErrors::TransitionsDoNotFormLoop)
    );

    let transitions = vec![
        RegularAutomataTransition::new("1,1", "a", "0,0"),
        RegularAutomataTransition::new("0,0", "a", "2,2"),
        RegularAutomataTransition::new("0,0", "a", "1,1"),
    ];

    assert_eq!(
        transitions.do_transitions_form_valid_loop(),
        Err(LoopingTransitionErrors::TransitionsNotContinuous)
    );

    let transitions = vec![
        RegularAutomataTransition::new("0,0", "a", "1,1"),
        RegularAutomataTransition::new("1,1", "a", "2,2"),
        RegularAutomataTransition::new("2,2", "a", "0,0"),
    ];

    assert_eq!(transitions.do_transitions_form_valid_loop(), Ok(()));
}

#[test]
fn test_transition_looping_equality() {
    let transitions_one = vec![
        RegularAutomataTransition::new("0,0", "a", "1,1"),
        RegularAutomataTransition::new("1,1", "a", "2,2"),
        RegularAutomataTransition::new("2,2", "a", "0,0"),
    ];

    let transitions_two = vec![
        RegularAutomataTransition::new("1,1", "a", "2,2"),
        RegularAutomataTransition::new("2,2", "a", "0,0"),
        RegularAutomataTransition::new("0,0", "a", "1,1"),
    ];

    assert!(transitions_one.are_loops_equivalent(&transitions_two).unwrap());

    let transitions_two = vec![
        RegularAutomataTransition::new("1,1", "a", "2,2"),
        RegularAutomataTransition::new("2,2", "a", "1,1"),
    ];

    assert!(!transitions_one.are_loops_equivalent(&transitions_two).unwrap());
}

#[test]
fn transitions_without_any_are_no_loop() {
    let transitions: Vec<RegularAutomataTransition> = vec![];
    assert_eq!(
        transitions.do_transitions_form_valid_loop(),
        Err(LoopingTransitionErrors::ZeroLengthTransitionsProvided)
    );
    assert_eq!(
        transitions.get_string_consumed_by_loop(),
        Err(LoopingTransitionErrors::ZeroLengthTransitionsProvided)
    );
}

#[test]
fn loop_consumes_its_symbols_in_order() {
    let transitions = vec![
        RegularAutomataTransition::new("0,0", "a", "1,1"),
        RegularAutomataTransition::new("1,1", "b", "2,2"),
        RegularAutomataTransition::new("2,2", "c", "0,0"),
    ];
    assert_eq!(transitions.get_string_consumed_by_loop(), Ok(String::from("abc")));
    assert_eq!(transitions.is_state_key_in_loop("1,1"), Ok(true));
    assert_eq!(transitions.is_state_key_in_loop("7,7"), Ok(false));
    let first = &transitions[0];
    assert_eq!(first.get_connection_character(), "a");
    assert_eq!(
        first.get_start_and_end_state_keys(),
        (String::from("0,0"), String::from("1,1"))
    );
}

#[test]
fn loops_with_the_same_transitions_in_another_order_differ() {
    let one = vec![
        RegularAutomataTransition::new("0,0", "a", "1,1"),
        RegularAutomataTransition::new("1,1", "a", "0,0"),
        RegularAutomataTransition::new("0,0", "b", "0,0"),
    ];
    let two = vec![
        RegularAutomataTransition::new("0,0", "b", "0,0"),
        RegularAutomataTransition::new("0,0", "a", "1,1"),
        RegularAutomataTransition::new("1,1", "a", "0,0"),
    ];
    assert_eq!(one.are_loops_equivalent(&two), Ok(true));
    let three = vec![
        RegularAutomataTransition::new("0,0", "a", "1,1"),
        RegularAutomataTransition::new("1,1", "b", "0,0"),
        RegularAutomataTransition::new("0,0", "a", "0,0"),
    ];
    assert_eq!(one.are_loops_equivalent(&three), Ok(false));
}
