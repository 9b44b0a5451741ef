//! Klang: its grammar, and the parse of a source text to a text.

use vstd::prelude::*;
use crate::engine::parse;
use crate::grammar::{
    defines, index_from, lemma_pegs_of, pegs_of, rules_of, ClassModel, Expr, Peg, Rule,
    RuleModel,
};
use crate::registry::{lemma_fault_free_is_valid, refs, refs_all, Grammar, Registry};
use crate::report::{report_text, summary_text};
use crate::semantics::outcome;
use crate::tree::rendering;

verus! {

/// A character of a word: a letter of the Latin alphabet, a digit or an underscore.
pub open spec fn word_character() -> Peg {
    Peg::Choice(
        seq![
            Peg::Class(ClassModel::Range('a', 'z')),
            Peg::Class(ClassModel::Range('A', 'Z')),
            Peg::Class(ClassModel::Range('0', '9')),
            Peg::Literal("_"@),
        ],
    )
}

/// The rules of Klang.
///
/// A program is any number of statements, each followed by a semicolon. A statement is a word
/// of one or more letters, digits and underscores.
pub open spec fn klang_rules() -> Seq<RuleModel> {
    seq![
        RuleModel {
            name: "program"@,
            body: Peg::Repeat(
                Box::new(Peg::Sequence(seq![Peg::RuleRef("statement"@), Peg::Literal(";"@)])),
                0,
                None,
            ),
        },
        RuleModel { name: "statement"@, body: Peg::Repeat(Box::new(word_character()), 1, None) },
    ]
}

/// The grammar of Klang, which starts at the rule `program`.
pub open spec fn klang_grammar() -> Grammar {
    Grammar { rules: klang_rules(), start: "program"@ }
}

/// The rules of Klang make a valid grammar.
pub proof fn lemma_klang_is_valid()
    ensures
        klang_grammar().valid(),
{
    let rules = klang_rules();
    reveal_strlit("program");
    reveal_strlit("statement");
    assert("program"@.len() != "statement"@.len());
    reveal_with_fuel(index_from, 3);
    assert(defines(rules, "program"@));
    assert(defines(rules, "statement"@));
    let pair = seq![Peg::RuleRef("statement"@), Peg::Literal(";"@)];
    assert(refs_all(pair) =~= seq!["statement"@]) by {
        reveal_with_fuel(refs_all, 3);
        assert(pair.drop_last() =~= seq![Peg::RuleRef("statement"@)]);
        assert(pair.drop_last().drop_last() =~= Seq::empty());
    }
    assert(refs(rules[0].body) =~= seq!["statement"@]) by {
        reveal_with_fuel(refs, 3);
    }
    let word = word_character()->Choice_0;
    assert(refs_all(word) =~= Seq::empty()) by {
        reveal_with_fuel(refs_all, 5);
        assert(word.drop_last() =~= seq![word[0], word[1], word[2]]);
        assert(word.drop_last().drop_last() =~= seq![word[0], word[1]]);
        assert(word.drop_last().drop_last().drop_last() =~= seq![word[0]]);
        assert(word.drop_last().drop_last().drop_last().drop_last() =~= Seq::empty());
    }
    assert(refs(rules[1].body) =~= Seq::empty()) by {
        reveal_with_fuel(refs, 3);
    }
}

/// The registry of Klang.
pub fn klang() -> (registry: Registry)
    ensures
        registry@ == klang_grammar(),
{
    let mut pair: Vec<Expr> = Vec::new();
    pair.push(Expr::rule("statement"));
    pair.push(Expr::literal(";"));
    let mut word: Vec<Expr> = Vec::new();
    word.push(Expr::range('a', 'z'));
    word.push(Expr::range('A', 'Z'));
    word.push(Expr::range('0', '9'));
    word.push(Expr::literal("_"));
    proof {
        lemma_pegs_of(pair@);
        lemma_pegs_of(word@);
        assert(pegs_of(pair@) =~= seq![Peg::RuleRef("statement"@), Peg::Literal(";"@)]);
        assert(pegs_of(word@) =~= word_character()->Choice_0);
    }
    let program = Rule::new("program", Expr::repeat(Expr::sequence(pair), 0, None));
    let statement = Rule::new("statement", Expr::repeat(Expr::choice(word), 1, None));
    assert(program@ == klang_rules()[0]);
    assert(statement@ == klang_rules()[1]);
    let mut definitions: Vec<Rule> = Vec::new();
    definitions.push(program);
    definitions.push(statement);
    proof {
        assert(rules_of(definitions@) =~= klang_rules());
        lemma_klang_is_valid();
        lemma_fault_free_is_valid(klang_rules(), "program"@);
    }
    match Registry::load(definitions, "program") {
        Ok(registry) => registry,
        Err(_) => unreached(),
    }
}

/// What is handed back for a source text with a syntax error: the words
/// `Error parsing code: ` and the error in one line, and below that the report of the error.
pub open spec fn failure_text(summary: Seq<char>, report: Seq<char>) -> Seq<char> {
    "Error parsing code: "@ + summary + "\n"@ + report
}

/// The result of parsing a source text from the start rule of a grammar, as text: the
/// rendering of the tree, or the text of the syntax error.
pub open spec fn parse_text(grammar: Grammar, code: Seq<char>) -> Seq<char> {
    match outcome(grammar.rules, grammar.start, code) {
        Ok(tree) => rendering(tree, Seq::empty()),
        Err(failure) => failure_text(
            summary_text(failure),
            report_text(failure.place.offset, failure.expected, code),
        ),
    }
}

/// The text that is handed back for a source text with a syntax error, from the error in one
/// line and its report.
pub fn error_text(summary: &str, report: &str) -> (text: String)
    ensures
        text@ == failure_text(summary@, report@),
{
    let mut text = String::from_str("Error parsing code: ");
    text.append(summary);
    text.append("\n");
    text.append(report);
    text
}

/// Parses a source text from the start rule of the registry and hands back the result as
/// text: the rendering of the parse tree, or the words `Error parsing code: `, the line,
/// the column and the message of the syntax error, and below that the report of the error.
pub fn parse_to_text(registry: &Registry, code: &str) -> (text: String)
    requires
        code@.len() < usize::MAX,
    ensures
        text@ == parse_text(registry@, code@),
{
    match parse(registry, registry.start(), code) {
        Ok(tree) => tree.render(),
        Err(error) => {
            let summary = error.summary();
            let report = error.report(code);
            error_text(summary.as_str(), report.as_str())
        },
    }
}

/// Parses a Klang program and hands back the result as text: the rendering of the parse tree,
/// or the words `Error parsing code: `, the line, the column and the message of the syntax
/// error, and below that the report of the error.
pub fn parse_code(code: &str) -> (text: String)
    requires
        code@.len() < usize::MAX,
    ensures
        text@ == parse_text(klang_grammar(), code@),
{
    let registry = klang();
    parse_to_text(&registry, code)
}

} // verus!
