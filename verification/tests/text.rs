use klang_parser::engine::parse;
use klang_parser::failure::{Position, SyntaxError};
use klang_parser::furthest::Furthest;
use klang_parser::grammar::{CharClass, Expr, Rule};
use klang_parser::klang::{error_text, klang, parse_to_text};
use klang_parser::parse_code;
use klang_parser::registry::Registry;
use klang_parser::tree::Node;

fn terminal(start: usize, end: usize) -> Node {
    Node { rule: None, start, end, children: Vec::new() }
}

fn error(offset: usize, line: usize, column: usize, expected: &[&str]) -> SyntaxError {
    SyntaxError {
        position: Position { offset, line, column },
        expected: expected.iter().map(|name| name.to_string()).collect(),
    }
}

#[test]
fn a_tree_is_rendered_line_by_line() {
    let tree = Node {
        rule: Some("sum".to_string()),
        start: 0,
        end: 12,
        children: vec![
            Node {
                rule: Some("number".to_string()),
                start: 0,
                end: 10,
                children: vec![terminal(0, 10)],
            },
            terminal(10, 11),
            Node { rule: Some("number".to_string()), start: 11, end: 12, children: Vec::new() },
        ],
    };
    assert_eq!(
        tree.render(),
        "sum [0, 12)\n  number [0, 10)\n    terminal [0, 10)\n  terminal [10, 11)\n  number [11, 12)\n"
    );
}

#[test]
fn spans_are_rendered_in_decimal() {
    assert_eq!(terminal(0, 0).render(), "terminal [0, 0)\n");
    assert_eq!(terminal(9, 10).render(), "terminal [9, 10)\n");
    assert_eq!(terminal(109, 4096).render(), "terminal [109, 4096)\n");
    assert_eq!(
        terminal(usize::MAX, usize::MAX).render(),
        format!("terminal [{}, {})\n", usize::MAX, usize::MAX)
    );
}

#[test]
fn the_message_enumerates_what_was_expected() {
    assert_eq!(error(0, 1, 1, &[]).message(), "expected nothing");
    assert_eq!(error(0, 1, 1, &["a"]).message(), "expected a");
    assert_eq!(error(0, 1, 1, &["a", "b"]).message(), "expected a or b");
    assert_eq!(error(0, 1, 1, &["a", "b", "c"]).message(), "expected a, b, or c");
    assert_eq!(error(0, 1, 1, &["a", "b", "c", "d"]).message(), "expected a, b, c, or d");
}

#[test]
fn the_summary_names_line_column_and_what_was_expected() {
    assert_eq!(error(3, 1, 4, &["\";\""]).summary(), "line 1, column 4: expected \";\"");
    assert_eq!(
        error(250, 12, 107, &["a", "b", "c"]).summary(),
        "line 12, column 107: expected a, b, or c"
    );
}

#[test]
fn the_report_shows_the_line_and_the_column() {
    let report = error(3, 1, 4, &["\";\""]).report("x;y");
    assert_eq!(report, " --> 1:4\n  |\n1 | x;y\n  |    ^---\n  |\n  = expected \";\"");
}

#[test]
fn the_report_finds_the_line_of_the_error() {
    let report = error(6, 2, 3, &["digit"]).report("ab;\ncd?\nef;");
    assert_eq!(report, " --> 2:3\n  |\n2 | cd?\n  |   ^---\n  |\n  = expected digit");
}

#[test]
fn the_report_counts_characters_not_bytes() {
    let report = error(2, 1, 3, &["digit"]).report("é√x");
    assert_eq!(report, " --> 1:3\n  |\n1 | é√x\n  |   ^---\n  |\n  = expected digit");
}

#[test]
fn the_report_of_an_error_beyond_the_input_is_the_message() {
    assert_eq!(error(4, 1, 5, &["digit"]).report("abc"), "expected digit");
}

#[test]
fn positions_are_located_by_line_feeds() {
    let definitions = vec![Rule::new(
        "start",
        Expr::sequence(vec![
            Expr::repeat(Expr::class(CharClass::NoneOf(vec!['?'])), 0, None),
            Expr::literal("!"),
        ]),
    )];
    let registry = Registry::load(definitions, "start").unwrap();
    let text: Vec<char> = "ab\n\ncd\r\ne".chars().collect();
    let expected = [
        (1, 1),
        (1, 2),
        (1, 3),
        (2, 1),
        (3, 1),
        (3, 2),
        (3, 3),
        (3, 4),
        (4, 1),
        (4, 2),
    ];
    for (offset, (line, column)) in expected.iter().enumerate() {
        let mut input: String = text[..offset].iter().collect();
        input.push('?');
        let error = parse(&registry, "start", &input).unwrap_err();
        assert_eq!(error.position, Position { offset, line: *line, column: *column });
    }
}

#[test]
fn the_furthest_failure_keeps_the_later_position() {
    let mut furthest = Furthest::new();
    assert_eq!(furthest, Furthest { pos: 0, names: Vec::new() });
    furthest.note(0, "a".to_string());
    furthest.note(2, "b".to_string());
    furthest.note(1, "c".to_string());
    furthest.note(2, "d".to_string());
    furthest.note(2, "b".to_string());
    assert_eq!(furthest, Furthest { pos: 2, names: vec!["b".to_string(), "d".to_string()] });
    furthest.note_literal(3, &vec!['x', 'y']);
    assert_eq!(furthest, Furthest { pos: 3, names: vec!["\"xy\"".to_string()] });
    furthest.note_rule(3, &"rule".to_string());
    furthest.note_rule(2, &"early".to_string());
    assert_eq!(
        furthest,
        Furthest { pos: 3, names: vec!["\"xy\"".to_string(), "rule".to_string()] }
    );
}

#[test]
fn a_program_is_rendered_as_its_tree() {
    assert_eq!(
        parse_code("x;y;"),
        "program [0, 4)\n  statement [0, 1)\n    terminal [0, 1)\n  terminal [1, 2)\n  statement [2, 3)\n    terminal [2, 3)\n  terminal [3, 4)\n"
    );
    assert_eq!(parse_code(""), "program [0, 0)\n");
    assert_eq!(
        parse_code("a_1;"),
        "program [0, 4)\n  statement [0, 3)\n    terminal [0, 1)\n    terminal [1, 2)\n    terminal [2, 3)\n  terminal [3, 4)\n"
    );
}

#[test]
fn a_program_without_its_last_semicolon_is_an_error() {
    assert_eq!(
        parse_code("x;y"),
        "Error parsing code: line 1, column 4: expected 'a'..'z', 'A'..'Z', '0'..'9', \"_\", or \";\"\n --> 1:4\n  |\n1 | x;y\n  |    ^---\n  |\n  = expected 'a'..'z', 'A'..'Z', '0'..'9', \"_\", or \";\""
    );
}

#[test]
fn a_program_that_starts_wrong_is_an_error_at_its_start() {
    assert_eq!(
        parse_code("?"),
        "Error parsing code: line 1, column 1: expected 'a'..'z', 'A'..'Z', '0'..'9', \"_\", statement, or end of input\n --> 1:1\n  |\n1 | ?\n  | ^---\n  |\n  = expected 'a'..'z', 'A'..'Z', '0'..'9', \"_\", statement, or end of input"
    );
}

#[test]
fn the_same_program_gives_the_same_text() {
    for code in ["x;y;", "x;y", "", ";", "x y;"] {
        assert_eq!(parse_code(code), parse_code(code));
    }
}

#[test]
fn klang_starts_at_the_program() {
    let registry = klang();
    assert_eq!(registry.start(), "program");
    assert_eq!(registry.len(), 2);
    assert!(registry.rule("program").is_some());
    assert!(registry.rule("statement").is_some());
    for code in ["", "x;", "x;y", "first;second_2;", "1 2"] {
        assert_eq!(parse_to_text(&registry, code), parse_code(code));
    }
}

#[test]
fn any_grammar_parses_to_text_from_its_start_rule() {
    let definitions = vec![
        Rule::new("digits", Expr::repeat(Expr::range('0', '9'), 1, None)),
        Rule::new(
            "sum",
            Expr::sequence(vec![Expr::rule("digits"), Expr::literal("+"), Expr::rule("digits")]),
        ),
    ];
    let registry = Registry::load(definitions, "sum").unwrap();
    assert_eq!(
        parse_to_text(&registry, "12+3"),
        "sum [0, 4)\n  digits [0, 2)\n    terminal [0, 1)\n    terminal [1, 2)\n  terminal [2, 3)\n  digits [3, 4)\n    terminal [3, 4)\n"
    );
    assert_eq!(
        parse_to_text(&registry, "12\n+\n3"),
        "Error parsing code: line 1, column 3: expected '0'..'9' or \"+\"\n --> 1:3\n  |\n1 | 12␊\n  |   ^---\n  |\n  = expected '0'..'9' or \"+\""
    );
}

#[test]
fn the_report_names_the_line_and_column_of_the_position() {
    let definitions = vec![Rule::new(
        "start",
        Expr::sequence(vec![
            Expr::repeat(Expr::class(CharClass::NoneOf(vec!['?'])), 0, None),
            Expr::literal("!"),
        ]),
    )];
    let registry = Registry::load(definitions, "start").unwrap();
    let text: Vec<char> = "ab\r\ncd\re\n\n\rü√\r\n\r\nz".chars().collect();
    for offset in 0..=text.len() {
        let mut input: String = text[..offset].iter().collect();
        input.push('?');
        input.extend(text[offset..].iter());
        let error = parse(&registry, "start", &input).unwrap_err();
        assert_eq!(error.position.offset, offset);
        let report = error.report(&input);
        let heading = format!(" --> {}:{}\n", error.position.line, error.position.column);
        assert!(report.starts_with(&heading), "{:?} does not start with {:?}", report, heading);
        assert!(report.ends_with(&format!("  = {}", error.message())));
        if offset > 0 {
            assert_eq!(error.message(), "expected none of \"?\" or \"!\"");
        } else {
            assert_eq!(error.message(), "expected none of \"?\", \"!\", or start");
        }
    }
}

#[test]
fn the_text_of_an_error_starts_with_what_went_wrong() {
    assert_eq!(
        error_text("line 1, column 2: expected digit", "report"),
        "Error parsing code: line 1, column 2: expected digit\nreport"
    );
    assert_eq!(error_text("", ""), "Error parsing code: \n");
    let registry = klang();
    let error = parse(&registry, "program", "a b").unwrap_err();
    assert_eq!(parse_code("a b"), error_text(&error.summary(), &error.report("a b")));
}
