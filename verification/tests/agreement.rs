use klang_parser::engine::parse;
use klang_parser::grammar::{Expr, Rule};
use klang_parser::klang::klang;
use klang_parser::registry::Registry;
use klang_parser::tree::Node;
use pest::iterators::Pair;
use pest::{ParseResult, ParserState};

#[derive(Clone, Copy, Debug, PartialEq, Eq, PartialOrd, Ord, Hash)]
enum Name {
    List,
    Item,
    Word,
    Program,
    Statement,
}

type State<'i> = Box<ParserState<'i, Name>>;

fn letter<'i>(state: State<'i>) -> ParseResult<State<'i>> {
    state.match_range('a'..'z')
}

fn word<'i>(state: State<'i>) -> ParseResult<State<'i>> {
    state.rule(Name::Word, |s| s.sequence(|s| letter(s).and_then(|s| s.repeat(letter))))
}

fn item<'i>(state: State<'i>) -> ParseResult<State<'i>> {
    state.rule(Name::Item, |s| list(s).or_else(word))
}

fn more_items<'i>(state: State<'i>) -> ParseResult<State<'i>> {
    state.sequence(|s| s.match_string(",").and_then(item))
}

fn items<'i>(state: State<'i>) -> ParseResult<State<'i>> {
    state.sequence(|s| item(s).and_then(|s| s.repeat(more_items)))
}

fn list<'i>(state: State<'i>) -> ParseResult<State<'i>> {
    state.rule(Name::List, |s| {
        s.sequence(|s| {
            s.match_string("(").and_then(|s| s.optional(items)).and_then(|s| s.match_string(")"))
        })
    })
}

fn word_character<'i>(state: State<'i>) -> ParseResult<State<'i>> {
    state
        .match_range('a'..'z')
        .or_else(|s| s.match_range('A'..'Z'))
        .or_else(|s| s.match_range('0'..'9'))
        .or_else(|s| s.match_string("_"))
}

fn statement<'i>(state: State<'i>) -> ParseResult<State<'i>> {
    state.rule(Name::Statement, |s| {
        s.sequence(|s| word_character(s).and_then(|s| s.repeat(word_character)))
    })
}

fn statement_and_semicolon<'i>(state: State<'i>) -> ParseResult<State<'i>> {
    state.sequence(|s| statement(s).and_then(|s| s.match_string(";")))
}

fn program<'i>(state: State<'i>) -> ParseResult<State<'i>> {
    state.rule(Name::Program, |s| s.repeat(statement_and_semicolon))
}

fn lists() -> Registry {
    let definitions = vec![
        Rule::new(
            "List",
            Expr::sequence(vec![
                Expr::literal("("),
                Expr::optional(Expr::sequence(vec![
                    Expr::rule("Item"),
                    Expr::repeat(
                        Expr::sequence(vec![Expr::literal(","), Expr::rule("Item")]),
                        0,
                        None,
                    ),
                ])),
                Expr::literal(")"),
            ]),
        ),
        Rule::new("Item", Expr::choice(vec![Expr::rule("List"), Expr::rule("Word")])),
        Rule::new("Word", Expr::repeat(Expr::range('a', 'z'), 1, None)),
    ];
    Registry::load(definitions, "List").unwrap()
}

fn rules_of_pair(pair: Pair<Name>, out: &mut Vec<(String, usize, usize)>) {
    let span = pair.as_span();
    out.push((format!("{:?}", pair.as_rule()), span.start(), span.end()));
    for inner in pair.into_inner() {
        rules_of_pair(inner, out);
    }
}

fn rules_of_node(node: &Node, out: &mut Vec<(String, usize, usize)>) {
    if let Some(rule) = &node.rule {
        let mut name: String = rule.clone();
        let first = name.remove(0).to_ascii_uppercase();
        name.insert(0, first);
        out.push((name, node.start, node.end));
    }
    for child in &node.children {
        rules_of_node(child, out);
    }
}

fn by_pest(input: &str, start: fn(State) -> ParseResult<State>) -> Option<Vec<(String, usize, usize)>> {
    let pairs = pest::state(input, |s| start(s).and_then(|s| s.end_of_input())).ok()?;
    let mut out = Vec::new();
    for pair in pairs {
        rules_of_pair(pair, &mut out);
    }
    Some(out)
}

fn by_engine(registry: &Registry, input: &str) -> Option<Vec<(String, usize, usize)>> {
    let tree = parse(registry, registry.start(), input).ok()?;
    let mut out = Vec::new();
    rules_of_node(&tree, &mut out);
    Some(out)
}

fn texts(alphabet: &[char], longest: usize) -> Vec<String> {
    let mut all = vec![String::new()];
    let mut last = vec![String::new()];
    for _ in 0..longest {
        let mut next = Vec::new();
        for text in &last {
            for c in alphabet {
                let mut longer = text.clone();
                longer.push(*c);
                next.push(longer);
            }
        }
        all.extend(next.iter().cloned());
        last = next;
    }
    all
}

#[test]
fn the_engine_finds_the_lists_that_pest_finds() {
    let registry = lists();
    let mut accepted = 0;
    for input in texts(&['(', ')', ',', 'a'], 7) {
        let expected = by_pest(&input, list);
        assert_eq!(by_engine(&registry, &input), expected, "on {:?}", input);
        if expected.is_some() {
            accepted += 1;
        }
    }
    assert!(accepted > 10);
}

#[test]
fn the_engine_finds_the_programs_that_pest_finds() {
    let registry = klang();
    let mut accepted = 0;
    for input in texts(&['x', 'Y', '2', '_', ';', ' '], 6) {
        let expected = by_pest(&input, program);
        assert_eq!(by_engine(&registry, &input), expected, "on {:?}", input);
        if expected.is_some() {
            accepted += 1;
        }
    }
    assert!(accepted > 50);
}
