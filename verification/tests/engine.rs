use klang_parser::engine::{evaluate, parse, Attempt};
use klang_parser::grammar::{CharClass, Expr, Rule};
use klang_parser::registry::Registry;

fn empty_grammar() -> Registry {
    Registry::load(vec![Rule::new("unit", Expr::literal(""))], "unit").unwrap()
}

fn attempt(e: &Expr, input: &str, pos: usize) -> Attempt {
    evaluate(&empty_grammar(), e, input, pos).unwrap()
}

fn spans(attempt: &Attempt) -> Vec<(usize, usize)> {
    attempt.nodes.iter().map(|node| (node.start, node.end)).collect()
}

fn names(list: &[&str]) -> Vec<String> {
    list.iter().map(|name| name.to_string()).collect()
}

#[test]
fn a_literal_consumes_its_length() {
    let found = attempt(&Expr::literal("bc"), "abcd", 1);
    assert!(found.matched);
    assert_eq!(found.pos, 3);
    assert_eq!(spans(&found), vec![(1, 3)]);
    assert_eq!(found.nodes[0].rule, None);
    assert!(found.furthest.names.is_empty());
}

#[test]
fn a_literal_that_differs_fails_without_advancing() {
    let found = attempt(&Expr::literal("bd"), "abcd", 1);
    assert!(!found.matched);
    assert_eq!(found.pos, 1);
    assert!(found.nodes.is_empty());
    assert_eq!(found.furthest.pos, 1);
    assert_eq!(found.furthest.names, names(&["\"bd\""]));
}

#[test]
fn a_literal_longer_than_the_rest_fails() {
    let found = attempt(&Expr::literal("cde"), "abcd", 2);
    assert!(!found.matched);
    assert_eq!(found.pos, 2);
}

#[test]
fn the_empty_literal_matches_everywhere() {
    let found = attempt(&Expr::literal(""), "ab", 2);
    assert!(found.matched);
    assert_eq!(found.pos, 2);
    assert_eq!(spans(&found), vec![(2, 2)]);
}

#[test]
fn a_class_consumes_one_character() {
    let digit = Expr::range('0', '9');
    let found = attempt(&digit, "a7", 1);
    assert!(found.matched);
    assert_eq!(found.pos, 2);
    let missed = attempt(&digit, "a7", 0);
    assert!(!missed.matched);
    assert_eq!(missed.pos, 0);
    assert_eq!(missed.furthest.names, names(&["'0'..'9'"]));
    let at_end = attempt(&digit, "a7", 2);
    assert!(!at_end.matched);
    assert_eq!(at_end.furthest.pos, 2);
}

#[test]
fn classes_are_named_after_what_they_hold() {
    let any = attempt(&Expr::class(CharClass::Any), "", 0);
    assert_eq!(any.furthest.names, names(&["any character"]));
    let one = attempt(&Expr::class(CharClass::OneOf(vec!['+', '-'])), "x", 0);
    assert_eq!(one.furthest.names, names(&["one of \"+-\""]));
    let none = attempt(&Expr::class(CharClass::NoneOf(vec!['"'])), "\"", 0);
    assert_eq!(none.furthest.names, names(&["none of \"\"\""]));
}

#[test]
fn classes_accept_what_they_hold() {
    assert!(CharClass::Any.accepts('x'));
    assert!(CharClass::Range('a', 'c').accepts('a'));
    assert!(CharClass::Range('a', 'c').accepts('c'));
    assert!(!CharClass::Range('a', 'c').accepts('d'));
    assert!(CharClass::OneOf(vec!['+', '-']).accepts('-'));
    assert!(!CharClass::OneOf(vec!['+', '-']).accepts('*'));
    assert!(CharClass::NoneOf(vec!['+', '-']).accepts('*'));
    assert!(!CharClass::NoneOf(vec!['+', '-']).accepts('+'));
    assert!(attempt(&Expr::class(CharClass::Any), "é", 0).matched);
}

#[test]
fn a_failed_sequence_rewinds_to_its_start() {
    let sequence = Expr::sequence(vec![Expr::literal("b"), Expr::literal("c"), Expr::literal("x")]);
    let found = attempt(&sequence, "abcd", 1);
    assert!(!found.matched);
    assert_eq!(found.pos, 1);
    assert!(found.nodes.is_empty());
    assert_eq!(found.furthest.pos, 3);
    assert_eq!(found.furthest.names, names(&["\"x\""]));
}

#[test]
fn a_sequence_hands_back_the_nodes_of_its_items_in_order() {
    let sequence = Expr::sequence(vec![Expr::literal("b"), Expr::literal("cd")]);
    let found = attempt(&sequence, "abcd", 1);
    assert!(found.matched);
    assert_eq!(found.pos, 4);
    assert_eq!(spans(&found), vec![(1, 2), (2, 4)]);
    let nothing = attempt(&Expr::sequence(Vec::new()), "abcd", 1);
    assert!(nothing.matched);
    assert_eq!(nothing.pos, 1);
    assert!(nothing.nodes.is_empty());
}

#[test]
fn a_repetition_below_its_minimum_rewinds_to_its_start() {
    let repeat = Expr::repeat(Expr::literal("a"), 3, None);
    let found = attempt(&repeat, "xaab", 1);
    assert!(!found.matched);
    assert_eq!(found.pos, 1);
    assert!(found.nodes.is_empty());
    assert_eq!(found.furthest.pos, 3);
    assert_eq!(found.furthest.names, names(&["\"a\""]));
}

#[test]
fn a_repetition_is_greedy_up_to_its_maximum() {
    let unbounded = attempt(&Expr::repeat(Expr::literal("a"), 0, None), "aaab", 0);
    assert!(unbounded.matched);
    assert_eq!(unbounded.pos, 3);
    assert_eq!(spans(&unbounded), vec![(0, 1), (1, 2), (2, 3)]);
    let bounded = attempt(&Expr::repeat(Expr::literal("a"), 0, Some(2)), "aaab", 0);
    assert!(bounded.matched);
    assert_eq!(bounded.pos, 2);
    assert!(bounded.furthest.names.is_empty());
    let none = attempt(&Expr::repeat(Expr::literal("a"), 0, Some(0)), "aaab", 0);
    assert!(none.matched);
    assert_eq!(none.pos, 0);
    let exact = attempt(&Expr::repeat(Expr::literal("a"), 3, Some(3)), "aaab", 0);
    assert!(exact.matched);
    assert_eq!(exact.pos, 3);
}

#[test]
fn a_repetition_that_asks_for_more_than_it_allows_fails() {
    let found = attempt(&Expr::repeat(Expr::literal("a"), 3, Some(2)), "aaaa", 0);
    assert!(!found.matched);
    assert_eq!(found.pos, 0);
    assert!(found.nodes.is_empty());
}

#[test]
fn a_repetition_of_nothing_ends() {
    let unbounded = attempt(&Expr::repeat(Expr::literal(""), 2, None), "ab", 1);
    assert!(unbounded.matched);
    assert_eq!(unbounded.pos, 1);
    assert_eq!(spans(&unbounded), vec![(1, 1)]);
    let bounded = attempt(&Expr::repeat(Expr::literal(""), 2, Some(3)), "ab", 1);
    assert!(bounded.matched);
    assert_eq!(spans(&bounded), vec![(1, 1), (1, 1), (1, 1)]);
}

#[test]
fn an_optional_expression_matches_once_or_not_at_all() {
    let optional = Expr::optional(Expr::literal("a"));
    let once = attempt(&optional, "aa", 0);
    assert!(once.matched);
    assert_eq!(once.pos, 1);
    let never = attempt(&optional, "ba", 0);
    assert!(never.matched);
    assert_eq!(never.pos, 0);
    assert!(never.nodes.is_empty());
    assert_eq!(never.furthest.names, names(&["\"a\""]));
}

#[test]
fn an_optional_expression_is_a_repetition_of_at_most_one() {
    for input in ["", "a", "aa", "b"] {
        let optional = attempt(&Expr::optional(Expr::literal("a")), input, 0);
        let repeat = attempt(&Expr::repeat(Expr::literal("a"), 0, Some(1)), input, 0);
        assert_eq!(optional, repeat);
    }
}

#[test]
fn the_first_alternative_that_matches_wins() {
    let long_first = Expr::choice(vec![Expr::literal("ab"), Expr::literal("a")]);
    let found = attempt(&long_first, "ab", 0);
    assert!(found.matched);
    assert_eq!(found.pos, 2);
    let short_first = Expr::choice(vec![Expr::literal("a"), Expr::literal("ab")]);
    let found = attempt(&short_first, "ab", 0);
    assert!(found.matched);
    assert_eq!(found.pos, 1);
    assert_eq!(spans(&found), vec![(0, 1)]);
}

#[test]
fn a_choice_is_not_tried_again_after_it_matched() {
    let definitions = vec![Rule::new(
        "start",
        Expr::sequence(vec![
            Expr::choice(vec![Expr::literal("a"), Expr::literal("ab")]),
            Expr::literal("c"),
        ]),
    )];
    let registry = Registry::load(definitions, "start").unwrap();
    let error = parse(&registry, "start", "abc").unwrap_err();
    assert_eq!(error.position.offset, 1);
    assert_eq!(error.expected, names(&["\"c\""]));
}

#[test]
fn a_choice_fails_where_no_alternative_matches() {
    let choice = Expr::choice(vec![Expr::literal("a"), Expr::literal("b")]);
    let found = attempt(&choice, "c", 0);
    assert!(!found.matched);
    assert_eq!(found.pos, 0);
    assert_eq!(found.furthest.names, names(&["\"a\"", "\"b\""]));
    let empty = attempt(&Expr::choice(Vec::new()), "c", 0);
    assert!(!empty.matched);
    assert!(empty.furthest.names.is_empty());
}

#[test]
fn the_furthest_failure_is_reported() {
    let definitions = vec![Rule::new(
        "start",
        Expr::choice(vec![
            Expr::sequence(vec![Expr::literal("a"), Expr::literal("b"), Expr::literal("c")]),
            Expr::sequence(vec![Expr::literal("a"), Expr::literal("x")]),
        ]),
    )];
    let registry = Registry::load(definitions, "start").unwrap();
    let error = parse(&registry, "start", "abd").unwrap_err();
    assert_eq!(error.position.offset, 2);
    assert_eq!(error.expected, names(&["\"c\""]));
}

#[test]
fn names_tried_at_the_furthest_position_are_listed_once_in_order() {
    let definitions = vec![Rule::new(
        "start",
        Expr::choice(vec![
            Expr::sequence(vec![Expr::literal("a"), Expr::literal("b")]),
            Expr::sequence(vec![Expr::literal("a"), Expr::literal("c")]),
            Expr::sequence(vec![Expr::literal("a"), Expr::literal("b")]),
        ]),
    )];
    let registry = Registry::load(definitions, "start").unwrap();
    let error = parse(&registry, "start", "ad").unwrap_err();
    assert_eq!(error.position.offset, 1);
    assert_eq!(error.expected, names(&["\"b\"", "\"c\""]));
}

#[test]
fn a_rule_reference_wraps_the_match_in_a_node() {
    let definitions = vec![
        Rule::new("outer", Expr::sequence(vec![Expr::literal("("), Expr::rule("inner")])),
        Rule::new("inner", Expr::repeat(Expr::range('a', 'z'), 1, None)),
    ];
    let registry = Registry::load(definitions, "outer").unwrap();
    let found = evaluate(&registry, &Expr::rule("outer"), "(ab)", 0).unwrap();
    assert!(found.matched);
    assert_eq!(found.pos, 3);
    assert_eq!(found.nodes.len(), 1);
    let outer = &found.nodes[0];
    assert_eq!(outer.rule, Some("outer".to_string()));
    assert_eq!((outer.start, outer.end), (0, 3));
    assert_eq!(outer.children.len(), 2);
    let inner = &outer.children[1];
    assert_eq!(inner.rule, Some("inner".to_string()));
    assert_eq!((inner.start, inner.end), (1, 3));
    assert_eq!(inner.children.len(), 2);
}

#[test]
fn a_reference_to_no_rule_fails() {
    let found = attempt(&Expr::rule("nowhere"), "a", 0);
    assert!(!found.matched);
    assert_eq!(found.furthest.names, names(&["nowhere"]));
}

#[test]
fn recursion_through_consumed_input_is_followed() {
    let definitions = vec![Rule::new(
        "nest",
        Expr::choice(vec![
            Expr::sequence(vec![Expr::literal("("), Expr::rule("nest"), Expr::literal(")")]),
            Expr::literal("x"),
        ]),
    )];
    let registry = Registry::load(definitions, "nest").unwrap();
    let tree = parse(&registry, "nest", "(((x)))").unwrap();
    assert_eq!((tree.start, tree.end), (0, 7));
    let innermost = &tree.children[1].children[1].children[1];
    assert_eq!(innermost.rule, Some("nest".to_string()));
    assert_eq!((innermost.start, innermost.end), (3, 4));
    let error = parse(&registry, "nest", "((x)").unwrap_err();
    assert_eq!(error.position.offset, 4);
    assert_eq!(error.expected, names(&["\")\""]));
}

#[test]
fn left_recursion_ends_in_a_failure_of_the_reference() {
    let definitions = vec![Rule::new(
        "list",
        Expr::choice(vec![
            Expr::sequence(vec![Expr::rule("list"), Expr::literal("x")]),
            Expr::literal("y"),
        ]),
    )];
    let registry = Registry::load(definitions, "list").unwrap();
    let tree = parse(&registry, "list", "y").unwrap();
    assert_eq!((tree.start, tree.end), (0, 1));
    let error = parse(&registry, "list", "yx").unwrap_err();
    assert_eq!(error.position.offset, 1);
    assert_eq!(error.expected, names(&["end of input"]));
}

#[test]
fn evaluation_beyond_the_input_is_refused() {
    assert!(evaluate(&empty_grammar(), &Expr::literal(""), "ab", 2).is_some());
    assert!(evaluate(&empty_grammar(), &Expr::literal(""), "ab", 3).is_none());
}

#[test]
fn parsing_twice_gives_the_same_result() {
    let definitions = vec![
        Rule::new("start", Expr::repeat(Expr::rule("item"), 1, None)),
        Rule::new("item", Expr::choice(vec![Expr::literal("ab"), Expr::range('0', '9')])),
    ];
    let registry = Registry::load(definitions, "start").unwrap();
    for input in ["ab1ab", "ab1a", "", "7"] {
        let first = parse(&registry, "start", input);
        let second = parse(&registry, "start", input);
        assert_eq!(first, second);
        match (first, second) {
            (Ok(a), Ok(b)) => assert_eq!(a.render(), b.render()),
            (Err(a), Err(b)) => assert_eq!(a.report(input), b.report(input)),
            _ => unreachable!(),
        }
    }
}

#[test]
fn a_successful_parse_covers_the_input() {
    let definitions = vec![
        Rule::new("start", Expr::repeat(Expr::rule("item"), 0, None)),
        Rule::new("item", Expr::choice(vec![Expr::literal("ab"), Expr::range('0', '9')])),
    ];
    let registry = Registry::load(definitions, "start").unwrap();
    for input in ["", "ab", "1ab2", "ab12ab"] {
        let tree = parse(&registry, "start", input).unwrap();
        assert_eq!(tree.rule, Some("start".to_string()));
        assert_eq!((tree.start, tree.end), (0, input.chars().count()));
        let mut at = 0;
        for child in &tree.children {
            assert_eq!(child.start, at);
            at = child.end;
        }
        assert_eq!(at, tree.end);
    }
}

#[test]
fn positions_count_characters() {
    let definitions = vec![Rule::new(
        "start",
        Expr::sequence(vec![Expr::literal("é"), Expr::literal("\n"), Expr::literal("ü!")]),
    )];
    let registry = Registry::load(definitions, "start").unwrap();
    let tree = parse(&registry, "start", "é\nü!").unwrap();
    assert_eq!((tree.start, tree.end), (0, 4));
    let error = parse(&registry, "start", "é\nü?").unwrap_err();
    assert_eq!(error.position.offset, 2);
    assert_eq!((error.position.line, error.position.column), (2, 1));
    assert_eq!(error.expected, names(&["\"ü!\""]));
}

#[test]
fn long_inputs_are_parsed_round_by_round() {
    let definitions = vec![
        Rule::new(
            "program",
            Expr::repeat(Expr::sequence(vec![Expr::rule("word"), Expr::literal(";")]), 0, None),
        ),
        Rule::new("word", Expr::repeat(Expr::range('a', 'z'), 1, None)),
    ];
    let registry = Registry::load(definitions, "program").unwrap();
    let rounds = 200_000;
    let input = "ab;".repeat(rounds);
    let tree = parse(&registry, "program", &input).unwrap();
    assert_eq!((tree.start, tree.end), (0, 3 * rounds));
    assert_eq!(tree.children.len(), 2 * rounds);
    let last = &tree.children[2 * rounds - 2];
    assert_eq!((last.start, last.end), (3 * rounds - 3, 3 * rounds - 1));
    let broken = format!("{}ab", input);
    let error = parse(&registry, "program", &broken).unwrap_err();
    assert_eq!(error.position.offset, 3 * rounds + 2);
    assert_eq!(error.expected, names(&["'a'..'z'", "\";\""]));
}
