use klang_parser::engine::parse;
use klang_parser::grammar::{CharClass, Expr, Rule};
use klang_parser::registry::{GrammarError, Registry};

fn statements(min: usize) -> Registry {
    let definitions = vec![
        Rule::new(
            "program",
            Expr::repeat(
                Expr::sequence(vec![Expr::rule("statement"), Expr::literal(";")]),
                min,
                None,
            ),
        ),
        Rule::new("statement", Expr::class(CharClass::Range('a', 'z'))),
    ];
    Registry::load(definitions, "program").unwrap()
}

#[test]
fn two_statements_make_two_children() {
    let registry = statements(0);
    let tree = parse(&registry, "program", "x;y;").unwrap();
    assert_eq!(tree.rule, Some("program".to_string()));
    assert_eq!((tree.start, tree.end), (0, 4));
    let spans: Vec<(usize, usize)> = tree
        .children
        .iter()
        .filter(|child| child.rule == Some("statement".to_string()))
        .map(|child| (child.start, child.end))
        .collect();
    assert_eq!(spans, vec![(0, 1), (2, 3)]);
}

#[test]
fn terminals_stand_between_the_statements() {
    let registry = statements(0);
    let tree = parse(&registry, "program", "x;y;").unwrap();
    let shape: Vec<(Option<String>, usize, usize, usize)> = tree
        .children
        .iter()
        .map(|child| (child.rule.clone(), child.start, child.end, child.children.len()))
        .collect();
    assert_eq!(
        shape,
        vec![
            (Some("statement".to_string()), 0, 1, 1),
            (None, 1, 2, 0),
            (Some("statement".to_string()), 2, 3, 1),
            (None, 3, 4, 0),
        ]
    );
    let inner = &tree.children[2].children[0];
    assert_eq!((inner.rule.clone(), inner.start, inner.end), (None, 2, 3));
}

#[test]
fn missing_semicolon_is_reported_where_it_fails() {
    let registry = statements(0);
    let error = parse(&registry, "program", "x;y").unwrap_err();
    assert_eq!(error.position.offset, 3);
    assert_eq!(error.position.line, 1);
    assert_eq!(error.position.column, 4);
    assert_eq!(error.expected, vec!["\";\"".to_string()]);
}

#[test]
fn undefined_reference_is_refused_at_load() {
    let definitions = vec![Rule::new("program", Expr::rule("statement"))];
    assert_eq!(
        Registry::load(definitions, "program"),
        Err(GrammarError::UndefinedRule("statement".to_string()))
    );
}

#[test]
fn empty_input_fails_at_the_start_when_one_round_is_required() {
    let registry = statements(1);
    let error = parse(&registry, "program", "").unwrap_err();
    assert_eq!(error.position.offset, 0);
    assert_eq!((error.position.line, error.position.column), (1, 1));
    assert_eq!(
        error.expected,
        vec!["'a'..'z'".to_string(), "statement".to_string(), "program".to_string()]
    );
}

#[test]
fn empty_input_is_an_empty_program_when_no_round_is_required() {
    let registry = statements(0);
    let tree = parse(&registry, "program", "").unwrap();
    assert_eq!((tree.start, tree.end), (0, 0));
    assert!(tree.children.is_empty());
}

#[test]
fn input_after_the_match_is_a_failure_at_its_first_character() {
    let definitions = vec![Rule::new("program", Expr::literal("ab"))];
    let registry = Registry::load(definitions, "program").unwrap();
    let error = parse(&registry, "program", "abc").unwrap_err();
    assert_eq!(error.position.offset, 2);
    assert_eq!(error.expected, vec!["end of input".to_string()]);
}

#[test]
fn unknown_start_rule_fails_at_the_start() {
    let registry = statements(0);
    let error = parse(&registry, "nowhere", "x;").unwrap_err();
    assert_eq!(error.position.offset, 0);
    assert_eq!(error.expected, vec!["nowhere".to_string()]);
}
