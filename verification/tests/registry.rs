use klang_parser::grammar::{CharClass, Expr, Rule};
use klang_parser::registry::{GrammarError, Registry};

#[test]
fn a_name_defined_twice_is_refused() {
    let definitions = vec![
        Rule::new("a", Expr::literal("x")),
        Rule::new("b", Expr::literal("y")),
        Rule::new("a", Expr::literal("z")),
    ];
    assert_eq!(
        Registry::load(definitions, "a"),
        Err(GrammarError::DuplicateRule("a".to_string()))
    );
}

#[test]
fn the_first_name_defined_twice_is_the_one_reported() {
    let definitions = vec![
        Rule::new("a", Expr::literal("x")),
        Rule::new("b", Expr::literal("y")),
        Rule::new("b", Expr::literal("y")),
        Rule::new("a", Expr::literal("z")),
    ];
    assert_eq!(
        Registry::load(definitions, "a"),
        Err(GrammarError::DuplicateRule("b".to_string()))
    );
}

#[test]
fn a_duplicate_is_reported_before_an_undefined_reference() {
    let definitions = vec![
        Rule::new("a", Expr::rule("missing")),
        Rule::new("a", Expr::literal("z")),
    ];
    assert_eq!(
        Registry::load(definitions, "start"),
        Err(GrammarError::DuplicateRule("a".to_string()))
    );
}

#[test]
fn the_first_undefined_reference_is_the_one_reported() {
    let definitions = vec![
        Rule::new(
            "a",
            Expr::sequence(vec![
                Expr::rule("b"),
                Expr::choice(vec![Expr::literal("x"), Expr::optional(Expr::rule("second"))]),
                Expr::repeat(Expr::rule("third"), 0, Some(2)),
            ]),
        ),
        Rule::new("b", Expr::rule("fourth")),
    ];
    assert_eq!(
        Registry::load(definitions, "a"),
        Err(GrammarError::UndefinedRule("second".to_string()))
    );
}

#[test]
fn an_undefined_reference_is_reported_before_a_missing_start_rule() {
    let definitions = vec![Rule::new("a", Expr::rule("b"))];
    assert_eq!(
        Registry::load(definitions, "start"),
        Err(GrammarError::UndefinedRule("b".to_string()))
    );
}

#[test]
fn a_missing_start_rule_is_refused() {
    let definitions = vec![Rule::new("a", Expr::literal("x"))];
    assert_eq!(Registry::load(definitions, "start"), Err(GrammarError::MissingStartRule));
    assert_eq!(Registry::load(Vec::new(), "start"), Err(GrammarError::MissingStartRule));
}

#[test]
fn rules_that_refer_to_each_other_are_accepted() {
    let definitions = vec![
        Rule::new("a", Expr::sequence(vec![Expr::literal("("), Expr::rule("b")])),
        Rule::new("b", Expr::choice(vec![Expr::rule("a"), Expr::literal(")")])),
    ];
    let registry = Registry::load(definitions, "a").unwrap();
    assert_eq!(registry.len(), 2);
    assert_eq!(registry.start(), "a");
}

#[test]
fn lookups_find_every_rule_of_a_loaded_registry() {
    let definitions = vec![
        Rule::new("a", Expr::rule("b")),
        Rule::new("b", Expr::class(CharClass::Any)),
    ];
    let registry = Registry::load(definitions, "a").unwrap();
    assert_eq!(registry.rule("a"), Some(&Expr::rule("b")));
    assert_eq!(registry.rule("b"), Some(&Expr::class(CharClass::Any)));
    assert_eq!(registry.rule("c"), None);
    assert_eq!(registry.rules().len(), 2);
}

#[test]
fn grammar_errors_say_what_is_wrong() {
    assert_eq!(
        GrammarError::UndefinedRule("statement".to_string()).message(),
        "undefined rule statement"
    );
    assert_eq!(GrammarError::DuplicateRule("a".to_string()).message(), "duplicate rule a");
    assert_eq!(GrammarError::MissingStartRule.message(), "missing start rule");
}

#[test]
fn builders_make_the_expressions_they_name() {
    assert_eq!(Expr::literal("ab"), Expr::Literal(vec!['a', 'b']));
    assert_eq!(Expr::literal(""), Expr::Literal(Vec::new()));
    assert_eq!(Expr::class(CharClass::Any), Expr::Class(CharClass::Any));
    assert_eq!(Expr::range('a', 'z'), Expr::Class(CharClass::Range('a', 'z')));
    assert_eq!(Expr::rule("a"), Expr::RuleRef("a".to_string()));
    assert_eq!(
        Expr::sequence(vec![Expr::rule("a"), Expr::rule("b")]),
        Expr::Sequence(vec![Expr::RuleRef("a".to_string()), Expr::RuleRef("b".to_string())])
    );
    assert_eq!(Expr::choice(Vec::new()), Expr::Choice(Vec::new()));
    assert_eq!(
        Expr::repeat(Expr::rule("a"), 1, Some(2)),
        Expr::Repeat(Box::new(Expr::RuleRef("a".to_string())), 1, Some(2))
    );
    assert_eq!(
        Expr::optional(Expr::rule("a")),
        Expr::Optional(Box::new(Expr::RuleRef("a".to_string())))
    );
    assert_eq!(
        Rule::new("a", Expr::literal("x")),
        Rule { name: "a".to_string(), body: Expr::Literal(vec!['x']) }
    );
}
