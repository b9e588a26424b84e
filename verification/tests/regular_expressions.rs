use inner_machinations::automaton::{Automaton, Edge, State, EPSILON};
use inner_machinations::coordinate::Coordinate;
use inner_machinations::regex_compile::{
    convert_parse_tree_to_nfa, handle_kleene_token_to_nfa_conversion, test_string_regex,
};
use inner_machinations::regex_models::{
    BinaryOperator, ConcatenatedExpression, KleeneOperator, Operator, OrOperator, ParsingError,
    Token, UnaryOperator,
};
use inner_machinations::regex_parsing::{
    build_parse_tree, tokenize_regular_expression, TokenArrayMethods,
};

fn literal(text: &str) -> Token {
    Token::Literal(text.to_owned())
}

fn or(left: Token, right: Token) -> Token {
    Token::OrOperator(Box::new(OrOperator::new(Some(left), Some(right))))
}

fn star(inner: Token) -> Token {
    Token::KleeneOperator(Box::new(KleeneOperator::new(Some(inner))))
}

fn concat(left: Token, right: Token) -> Token {
    Token::ConcatenatedExpression(Box::new(ConcatenatedExpression::new(Some(left), Some(right))))
}

#[test]
fn star_of_a_letter() {
    for s in ["", "a", "aa"] {
        assert!(test_string_regex("a*", s));
    }
    for s in ["b", "ab"] {
        assert!(!test_string_regex("a*", s));
    }
}

#[test]
fn star_of_an_alternation() {
    for s in ["", "ab", "bbbb", "abab"] {
        assert!(test_string_regex("(a+b)*", s));
    }
    assert!(!test_string_regex("(a+b)*", "c"));
}

#[test]
fn star_of_a_star() {
    for s in ["", "a", "aaa"] {
        assert!(test_string_regex("(a*)*", s));
    }
    assert!(!test_string_regex("(a*)*", "b"));
}

#[test]
fn alternation_without_right_operand_is_refused() {
    assert_eq!(build_parse_tree("a+"), Err(ParsingError::EmptyRightArg));
    assert!(!test_string_regex("a+", "a"));
}

#[test]
fn bracket_without_closing_bracket_is_refused() {
    assert_eq!(build_parse_tree("(a"), Err(ParsingError::MissingClosingBracket));
    assert_eq!(build_parse_tree("a((b)"), Err(ParsingError::MissingClosingBracket));
}

#[test]
fn star_without_operand_is_refused() {
    assert_eq!(build_parse_tree("*a"), Err(ParsingError::NoInnerArg));
    assert_eq!(build_parse_tree("(*)"), Err(ParsingError::NoInnerArg));
}

#[test]
fn text_without_tokens_is_refused() {
    assert_eq!(build_parse_tree(""), Err(ParsingError::NoneTokenProvided));
    assert_eq!(build_parse_tree(" \t\n "), Err(ParsingError::NoneTokenProvided));
    assert_eq!(build_parse_tree("()"), Err(ParsingError::NoneTokenProvided));
    assert_eq!(build_parse_tree("a( )"), Err(ParsingError::NoneTokenProvided));
    let nothing: Vec<Token> = vec![];
    assert_eq!(nothing.parse_tokens(), Err(ParsingError::NoneTokenProvided));
    assert!(!test_string_regex("", ""));
}

#[test]
fn alternation_without_left_operand_is_refused() {
    assert_eq!(build_parse_tree("+"), Err(ParsingError::EmptyLeftArg));
    assert_eq!(build_parse_tree("(+a)b"), Err(ParsingError::EmptyLeftArg));
}

#[test]
fn text_is_read_into_tokens() {
    let (tokens, closing) = tokenize_regular_expression("ab + (c*)d").unwrap();
    assert_eq!(closing, None);
    assert_eq!(
        tokens,
        vec![
            literal("ab"),
            Token::OrOperator(Box::new(OrOperator::new(None, None))),
            Token::GroupedExpression(Box::new(vec![
                literal("c"),
                Token::KleeneOperator(Box::new(KleeneOperator::new(None))),
            ])),
            literal("d"),
        ]
    );
    let (tokens, closing) = tokenize_regular_expression("a)b").unwrap();
    assert_eq!(tokens, vec![literal("a")]);
    assert_eq!(closing, Some(1));
    let (tokens, closing) = tokenize_regular_expression(") a").unwrap();
    assert!(tokens.is_empty());
    assert_eq!(closing, Some(0));
    let (tokens, closing) = tokenize_regular_expression("(a) b )").unwrap();
    assert_eq!(tokens, vec![Token::GroupedExpression(Box::new(vec![literal("a")])), literal("b")]);
    assert_eq!(closing, Some(6));
}

#[test]
fn run_of_plain_characters_is_one_literal() {
    assert_eq!(Token::parse_string_to_tokens("abc+d"), (literal("abc"), 3));
    assert_eq!(Token::parse_string_to_tokens("a b"), (literal("a"), 1));
    assert_eq!(Token::parse_string_to_tokens("+"), (literal(""), 0));
}

#[test]
fn trees_are_balanced() {
    assert_eq!(build_parse_tree("a"), Ok(literal("a")));
    assert_eq!(build_parse_tree("a b"), Ok(concat(literal("a"), literal("b"))));
    assert_eq!(
        build_parse_tree("a b c d"),
        Ok(concat(concat(literal("a"), literal("b")), concat(literal("c"), literal("d"))))
    );
    assert_eq!(
        build_parse_tree("a b c"),
        Ok(concat(literal("a"), concat(literal("b"), literal("c"))))
    );
    assert_eq!(
        build_parse_tree("a+b+c"),
        Ok(or(literal("a"), or(literal("b"), literal("c"))))
    );
    assert_eq!(
        build_parse_tree("a+b+c+d+e"),
        Ok(or(or(literal("a"), literal("b")), or(literal("c"), or(literal("d"), literal("e")))))
    );
    assert_eq!(build_parse_tree("ab*"), Ok(star(literal("ab"))));
    assert_eq!(build_parse_tree("a(b)*"), Ok(concat(literal("a"), star(literal("b")))));
    assert_eq!(build_parse_tree("a**"), Ok(star(star(literal("a")))));
}

#[test]
fn token_lists_answer_questions() {
    let (tokens, _) = tokenize_regular_expression("a+(b)*+c").unwrap();
    assert!(tokens.can_continue_parsing());
    assert_eq!(tokens.does_contain_grouped_expression().unwrap().1, 2);
    assert_eq!(tokens.does_contain_unfilled_kleene_token().unwrap().1, 3);
    assert_eq!(tokens.get_middlemost_or_token().unwrap().1, 4);
    let plain = vec![literal("a"), literal("b"), literal("c")];
    assert!(!plain.can_continue_parsing());
    assert!(plain.does_contain_grouped_expression().is_none());
    assert!(plain.does_contain_unfilled_kleene_token().is_none());
    assert!(plain.get_middlemost_or_token().is_none());
    assert_eq!(plain.concatenate_tokens(), concat(literal("a"), concat(literal("b"), literal("c"))));
    assert_eq!(plain.parse_tokens(), Ok(concat(literal("a"), concat(literal("b"), literal("c")))));
}

#[test]
fn trees_with_empty_slots_fail_the_check() {
    let missing_right = Token::OrOperator(Box::new(OrOperator::new(Some(literal("a")), None)));
    assert_eq!(missing_right.verify_syntactic_correctness(), Err(ParsingError::EmptyRightArg));
    let missing_left = Token::OrOperator(Box::new(OrOperator::new(None, Some(literal("a")))));
    assert_eq!(missing_left.verify_syntactic_correctness(), Err(ParsingError::EmptyLeftArg));
    let missing_inner = Token::KleeneOperator(Box::new(KleeneOperator::new(None)));
    assert_eq!(missing_inner.verify_syntactic_correctness(), Err(ParsingError::NoInnerArg));
    let deep = concat(literal("a"), star(missing_inner));
    assert_eq!(deep.verify_syntactic_correctness(), Err(ParsingError::NoInnerArg));
    assert_eq!(or(literal("a"), star(literal("b"))).verify_syntactic_correctness(), Ok(()));
    let operator = OrOperator::new(Some(literal("a")), None);
    assert_eq!(operator.get_left_argument(), Some(&literal("a")));
    assert_eq!(operator.get_right_argument(), None);
    assert!(operator.has_empty_arg());
    assert_eq!(KleeneOperator::new(Some(literal("a"))).get_inner_argument(), Some(&literal("a")));
}

fn empty_or() -> Token {
    Token::OrOperator(Box::new(OrOperator::new(None, None)))
}

#[test]
fn alternation_fills_its_first_empty_slot_level_by_level() {
    let mut operator = OrOperator::new(None, None);
    assert_eq!(operator.insert_token(Some(literal("a"))), Ok(()));
    assert_eq!(operator, OrOperator::new(None, Some(literal("a"))));
    assert_eq!(operator.insert_token(Some(literal("b"))), Ok(()));
    assert_eq!(operator, OrOperator::new(Some(literal("b")), Some(literal("a"))));
    assert_eq!(
        operator.insert_token(Some(literal("c"))),
        Err(ParsingError::NoEmptySpaceInParseTree)
    );
    assert_eq!(operator, OrOperator::new(Some(literal("b")), Some(literal("a"))));

    let mut nested = OrOperator::new(Some(empty_or()), Some(empty_or()));
    for text in ["1", "2", "3", "4"] {
        assert_eq!(nested.insert_token(Some(literal(text))), Ok(()));
    }
    assert_eq!(
        nested,
        OrOperator::new(
            Some(or(literal("3"), literal("4"))),
            Some(or(literal("1"), literal("2"))),
        )
    );

    let mut uneven = OrOperator::new(
        Some(Token::KleeneOperator(Box::new(KleeneOperator::new(None)))),
        Some(or(literal("x"), empty_or())),
    );
    assert_eq!(uneven.insert_token(Some(literal("1"))), Ok(()));
    assert_eq!(
        uneven,
        OrOperator::new(Some(star(literal("1"))), Some(or(literal("x"), empty_or())))
    );
    assert_eq!(uneven.insert_token(None), Ok(()));
    let mut full = OrOperator::new(Some(literal("a")), Some(literal("b")));
    assert_eq!(full.insert_token(None), Err(ParsingError::NoEmptySpaceInParseTree));
}

#[test]
fn star_fills_its_first_empty_slot_going_down() {
    let mut operator = KleeneOperator::new(None);
    assert_eq!(operator.insert_token(None), Err(ParsingError::NoneTokenProvided));
    assert_eq!(operator.insert_token(Some(literal("a"))), Ok(()));
    assert_eq!(operator, KleeneOperator::new(Some(literal("a"))));
    assert_eq!(
        operator.insert_token(Some(literal("b"))),
        Err(ParsingError::NoEmptySpaceInParseTree)
    );
    let mut nested = KleeneOperator::new(Some(Token::OrOperator(Box::new(OrOperator::new(
        None,
        Some(empty_or()),
    )))));
    for text in ["1", "2", "3"] {
        assert_eq!(nested.insert_token(Some(literal(text))), Ok(()));
    }
    assert_eq!(
        nested,
        KleeneOperator::new(Some(or(literal("3"), or(literal("2"), literal("1")))))
    );
    assert!(!nested.has_empty_arg());
}

#[test]
fn concatenation_fills_left_before_right() {
    let mut operator = ConcatenatedExpression::new(None, None);
    assert!(operator.has_empty_arg());
    assert_eq!(operator.insert_token(None), Err(ParsingError::NoneTokenProvided));
    assert_eq!(operator.insert_token(Some(literal("a"))), Ok(()));
    assert_eq!(operator.insert_token(Some(literal("b"))), Ok(()));
    assert_eq!(operator, ConcatenatedExpression::new(Some(literal("a")), Some(literal("b"))));
    assert_eq!(
        operator.insert_token(Some(literal("c"))),
        Err(ParsingError::NoEmptySpaceInParseTree)
    );
    assert_eq!(operator.left_insert_token(Some(literal("c"))), Ok(()));
    assert_eq!(operator.get_left_argument(), Some(&literal("c")));
    assert_eq!(operator.right_insert_token(None), Err(ParsingError::NoneTokenProvided));
}

#[test]
fn alternation_slots_pass_tokens_on_to_operators() {
    let mut operator = OrOperator::new(None, Some(empty_or()));
    assert_eq!(operator.left_insert_token(None), Err(ParsingError::NoneTokenProvided));
    assert_eq!(operator.left_insert_token(Some(literal("a"))), Ok(()));
    assert_eq!(
        operator.left_insert_token(Some(literal("b"))),
        Err(ParsingError::NoEmptySpaceInParseTree)
    );
    assert_eq!(operator.right_insert_token(Some(literal("c"))), Ok(()));
    assert_eq!(
        operator,
        OrOperator::new(
            Some(literal("a")),
            Some(Token::OrOperator(Box::new(OrOperator::new(None, Some(literal("c")))))),
        )
    );
}

fn edge(symbol: char, x: i32, y: i32) -> Edge {
    Edge { symbol, target: Coordinate::new(x, y) }
}

/// A start state, a final state, and the state of a star between them.
fn star_without_operand() -> Automaton {
    let mut start = State::new(Coordinate::new(300, 300), true, false);
    start.add_connection(EPSILON, Coordinate::new(700, 300));
    let end = State::new(Coordinate::new(500, 300), false, true);
    let mut loop_state = State::new(Coordinate::new(700, 300), false, false);
    loop_state.add_connection(EPSILON, Coordinate::new(500, 300));
    let mut a = Automaton::new();
    a.insert(start);
    a.insert(end);
    a.insert(loop_state);
    a
}

fn assert_loops_on_a(a: &Automaton) {
    assert_eq!(a.len(), 4);
    let start = a.get(Coordinate::new(300, 300)).unwrap();
    assert!(start.is_start() && !start.is_final());
    assert_eq!(start.get_all_connections(), &vec![edge(EPSILON, 700, 300)]);
    let end = a.get(Coordinate::new(500, 300)).unwrap();
    assert!(!end.is_start() && end.is_final());
    assert!(end.get_all_connections().is_empty());
    let loop_state = a.get(Coordinate::new(700, 300)).unwrap();
    assert!(!loop_state.is_start() && !loop_state.is_final());
    assert_eq!(loop_state.get_all_connections(), &vec![edge(EPSILON, 500, 300), edge('a', 900, 300)]);
    let added = a.get(Coordinate::new(900, 300)).unwrap();
    assert!(!added.is_start() && !added.is_final());
    assert_eq!(added.get_all_connections(), &vec![edge(EPSILON, 700, 300)]);
}

#[test]
fn operand_of_a_star_loops_through_the_state_it_is_given() {
    let mut a = star_without_operand();
    handle_kleene_token_to_nfa_conversion(
        Coordinate::new(300, 300),
        &mut a,
        &literal("a"),
        Coordinate::new(700, 300),
    );
    assert_loops_on_a(&a);
}

#[test]
fn star_gets_its_state_and_two_epsilon_edges_before_its_operand() {
    let mut a = Automaton::new();
    a.insert(State::new(Coordinate::new(300, 300), true, false));
    a.insert(State::new(Coordinate::new(500, 300), false, true));
    convert_parse_tree_to_nfa(
        &mut a,
        Coordinate::new(300, 300),
        &star(literal("a")),
        Coordinate::new(500, 300),
    );
    assert_loops_on_a(&a);
}

#[test]
fn literal_becomes_a_chain_that_ends_with_an_epsilon_edge() {
    let mut a = Automaton::new();
    a.insert(State::new(Coordinate::new(300, 300), true, false));
    a.insert(State::new(Coordinate::new(500, 300), false, true));
    convert_parse_tree_to_nfa(&mut a, Coordinate::new(300, 300), &literal("ab"), Coordinate::new(500, 300));
    assert_eq!(a.len(), 4);
    let start = a.get(Coordinate::new(300, 300)).unwrap();
    assert_eq!(start.get_all_connections(), &vec![edge('a', 700, 300)]);
    let first = a.get(Coordinate::new(700, 300)).unwrap();
    assert_eq!(first.get_all_connections(), &vec![edge('b', 900, 300)]);
    let second = a.get(Coordinate::new(900, 300)).unwrap();
    assert_eq!(second.get_all_connections(), &vec![edge(EPSILON, 500, 300)]);
}

/// The characters of the literals of a tree, from left to right; none if
/// the tree holds a group or an empty slot.
fn letters(tree: &Token) -> Option<String> {
    match tree {
        Token::Literal(text) => Some(text.clone()),
        Token::GroupedExpression(_) => None,
        Token::KleeneOperator(star) => letters(star.get_inner_argument()?),
        Token::OrOperator(pair) => {
            Some(letters(pair.get_left_argument()?)? + &letters(pair.get_right_argument()?)?)
        }
        Token::ConcatenatedExpression(pair) => {
            Some(letters(pair.get_left_argument()?)? + &letters(pair.get_right_argument()?)?)
        }
    }
}

#[test]
fn tree_holds_no_group_and_keeps_the_literals_in_order() {
    for (text, expected) in [
        ("abc", "abc"),
        ("ab + (c* d) e", "abcde"),
        ("((a))(b + (c d)*)* + e f", "abcdef"),
        ("x* y* + (z)", "xyz"),
    ] {
        let tree = build_parse_tree(text).unwrap();
        assert_eq!(letters(&tree).as_deref(), Some(expected));
    }
}
