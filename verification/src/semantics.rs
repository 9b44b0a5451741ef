//! What it means for an expression to match: the evaluation of a grammar as a function.
//!
//! Evaluation is ordered-choice recursive descent. A step starts at a position of the input and
//! either matches, leaving off at a later or equal position with the nodes it produced, or
//! fails, leaving off where it started with no nodes. Every failed attempt is noted, and only
//! the furthest position of a failure is kept, with the names that were tried there.
//!
//! Two guards make evaluation total. A rule reference fails when as many references as the
//! grammar has rules are already open at the position, none of which has consumed a character:
//! one more would open some rule twice there, which is left recursion. A repetition without an
//! upper bound ends, with a match, after a round that consumed nothing. A grammar whose
//! repetitions and recursions consume input never meets either guard: wherever evaluation
//! without the guards comes to an end, this one gives the same result (`crate::plain`).

use vstd::prelude::*;
use crate::failure::{place_at, Failure};
use crate::grammar::{lookup, ClassModel, Peg, RuleModel};
use crate::tree::Tree;

verus! {

/// The furthest position at which an attempt has failed, and the names tried there, each once,
/// in the order in which they were first tried.
pub struct Far {
    pub pos: nat,
    pub names: Seq<Seq<char>>,
}

impl Far {
    /// Before any attempt.
    pub open spec fn none() -> Far {
        Far { pos: 0, names: Seq::empty() }
    }

    /// Whether no name is listed twice, and some name is listed unless the position is the
    /// start of the input.
    pub open spec fn well_formed(self) -> bool {
        &&& self.names.no_duplicates()
        &&& self.pos > 0 ==> self.names.len() > 0
    }

    /// Records that `name` was tried at `pos` and failed.
    pub open spec fn note(self, pos: nat, name: Seq<char>) -> Far {
        if pos > self.pos {
            Far { pos, names: seq![name] }
        } else if pos == self.pos && !self.names.contains(name) {
            Far { pos, names: self.names.push(name) }
        } else {
            self
        }
    }
}

/// The result of evaluating an expression at a position.
pub struct Step {
    /// Whether the expression matched.
    pub matched: bool,
    /// Where evaluation left off: the end of the match, or the starting position on failure.
    pub pos: nat,
    /// The nodes of the match, in input order; none on failure.
    pub nodes: Seq<Tree>,
    /// The furthest failure after the step.
    pub far: Far,
}

/// The failed step that started at `pos`.
pub open spec fn fail(pos: nat, far: Far) -> Step {
    Step { matched: false, pos, nodes: Seq::empty(), far }
}

/// The node of a terminal that matched from `start` to `end`.
pub open spec fn terminal(start: nat, end: nat) -> Tree {
    Tree { rule: None, start, end, children: Seq::empty() }
}

/// The name under which a failed literal is reported: its text in double quotes.
pub open spec fn literal_name(text: Seq<char>) -> Seq<char> {
    seq!['"'] + text + seq!['"']
}

/// The name under which a failed character class is reported.
pub open spec fn class_name(class: ClassModel) -> Seq<char> {
    match class {
        ClassModel::Any => "any character"@,
        ClassModel::Range(lo, hi) => seq!['\'', lo, '\''] + ".."@ + seq!['\'', hi, '\''],
        ClassModel::OneOf(chars) => "one of "@ + literal_name(chars),
        ClassModel::NoneOf(chars) => "none of "@ + literal_name(chars),
    }
}

/// The name under which input after the end of the match is reported.
pub open spec fn end_of_input() -> Seq<char> {
    "end of input"@
}

/// Whether the input holds `text` at `pos`.
pub open spec fn literal_matches(input: Seq<char>, pos: nat, text: Seq<char>) -> bool {
    pos + text.len() <= input.len() && input.subrange(pos as int, (pos + text.len()) as int) == text
}

/// Whether `step` matched and left off between `from` and the end of the input. Every match
/// does (`crate::soundness::lemma_eval_sound`); the definitions ask, so that they are well
/// founded.
pub open spec fn advances(step: Step, from: nat, len: nat) -> bool {
    step.matched && from <= step.pos <= len
}

/// The number of rule references open at the position after a step from `from` to `to`:
/// none once a character has been consumed.
pub open spec fn depth_after(depth: nat, from: nat, to: nat) -> nat {
    if to > from {
        0
    } else {
        depth
    }
}

/// A literal at `pos`: a match over its text where the input holds it there, a failure noted
/// under its name where it does not.
pub open spec fn literal_step(input: Seq<char>, text: Seq<char>, pos: nat, far: Far) -> Step {
    if literal_matches(input, pos, text) {
        Step {
            matched: true,
            pos: pos + text.len(),
            nodes: seq![terminal(pos, pos + text.len())],
            far,
        }
    } else {
        fail(pos, far.note(pos, literal_name(text)))
    }
}

/// A character class at `pos`: a match over one character where the input has one there and
/// the class holds it, a failure noted under its name where not.
pub open spec fn class_step(input: Seq<char>, class: ClassModel, pos: nat, far: Far) -> Step {
    if pos < input.len() && class.accepts(input[pos as int]) {
        Step { matched: true, pos: pos + 1, nodes: seq![terminal(pos, pos + 1)], far }
    } else {
        fail(pos, far.note(pos, class_name(class)))
    }
}

/// A reference at `pos` to a rule whose body gave `inner` there: the match wrapped in a node
/// of the rule, or a failure noted under the rule's name.
pub open spec fn rule_step(name: Seq<char>, pos: nat, inner: Step) -> Step {
    if inner.matched {
        Step {
            matched: true,
            pos: inner.pos,
            nodes: seq![
                Tree { rule: Some(name), start: pos, end: inner.pos, children: inner.nodes },
            ],
            far: inner.far,
        }
    } else {
        fail(pos, inner.far.note(pos, name))
    }
}

/// An optional expression at `pos` whose inner expression gave `once` there: that match, or
/// a match of nothing.
pub open spec fn optional_step(pos: nat, once: Step) -> Step {
    if once.matched {
        once
    } else {
        Step { matched: true, pos, nodes: Seq::empty(), far: once.far }
    }
}

/// A match `first` from `pos`, followed by `rest` from where it left off: one match with the
/// nodes of both, or a failure back at `pos`.
pub open spec fn joined_step(pos: nat, first: Step, rest: Step) -> Step {
    if rest.matched {
        Step { matched: true, pos: rest.pos, nodes: first.nodes + rest.nodes, far: rest.far }
    } else {
        fail(pos, rest.far)
    }
}

/// The end of a repetition at `pos` with no further round: a match of nothing where the
/// rounds so far are enough, a failure where they are not.
pub open spec fn stop_step(enough: bool, pos: nat, far: Far) -> Step {
    Step { matched: enough, pos, nodes: Seq::empty(), far }
}

/// Evaluates `e` at `pos`, with `depth` rule references open at `pos`.
pub open spec fn eval(
    rules: Seq<RuleModel>,
    input: Seq<char>,
    e: Peg,
    pos: nat,
    depth: nat,
    far: Far,
) -> Step
    decreases input.len() - pos, rules.len() - depth, e, 0nat,
{
    match e {
        Peg::Literal(text) => literal_step(input, text, pos, far),
        Peg::Class(class) => class_step(input, class, pos, far),
        Peg::Sequence(items) => eval_sequence(rules, input, items, pos, depth, far),
        Peg::Choice(items) => eval_choice(rules, input, items, pos, depth, far),
        Peg::Repeat(inner, min, max) => eval_repeat(
            rules,
            input,
            *inner,
            min,
            max,
            0,
            pos,
            depth,
            far,
        ),
        Peg::Optional(inner) => optional_step(
            pos,
            eval(rules, input, *inner, pos, depth, far),
        ),
        Peg::RuleRef(name) => {
            match lookup(rules, name) {
                Some(body) if depth < rules.len() => rule_step(
                    name,
                    pos,
                    eval(rules, input, body, pos, depth + 1, far),
                ),
                _ => fail(pos, far.note(pos, name)),
            }
        },
    }
}

/// Evaluates the items one after the other; fails, back at `pos`, as soon as one of them fails.
pub open spec fn eval_sequence(
    rules: Seq<RuleModel>,
    input: Seq<char>,
    items: Seq<Peg>,
    pos: nat,
    depth: nat,
    far: Far,
) -> Step
    decreases input.len() - pos, rules.len() - depth, items, 0nat,
{
    if items.len() == 0 {
        Step { matched: true, pos, nodes: Seq::empty(), far }
    } else {
        let first = eval(rules, input, items[0], pos, depth, far);
        if !advances(first, pos, input.len()) {
            fail(pos, first.far)
        } else {
            joined_step(
                pos,
                first,
                eval_sequence(
                    rules,
                    input,
                    items.drop_first(),
                    first.pos,
                    depth_after(depth, pos, first.pos),
                    first.far,
                ),
            )
        }
    }
}

/// Evaluates the alternatives in order, each at `pos`; the first that matches is the result.
pub open spec fn eval_choice(
    rules: Seq<RuleModel>,
    input: Seq<char>,
    items: Seq<Peg>,
    pos: nat,
    depth: nat,
    far: Far,
) -> Step
    decreases input.len() - pos, rules.len() - depth, items, 0nat,
{
    if items.len() == 0 {
        fail(pos, far)
    } else {
        let first = eval(rules, input, items[0], pos, depth, far);
        if first.matched {
            first
        } else {
            eval_choice(rules, input, items.drop_first(), pos, depth, first.far)
        }
    }
}

/// The rounds that a repetition may still make after `count` of them: all that are left up to
/// its upper bound, and always one more where it has none.
pub open spec fn rounds_left(max: Option<nat>, count: nat) -> nat {
    match max {
        Some(m) => if count < m {
            (m - count) as nat
        } else {
            0
        },
        None => 1,
    }
}

/// Evaluates `inner` again and again from `pos`, after `count` rounds that matched: up to `max`
/// rounds in all, stopping at the first round that fails. Matches if at least `min` rounds did.
/// Without an upper bound, a round that matches and consumes nothing ends the repetition with
/// a match: it would match again as often as the minimum asks.
pub open spec fn eval_repeat(
    rules: Seq<RuleModel>,
    input: Seq<char>,
    inner: Peg,
    min: nat,
    max: Option<nat>,
    count: nat,
    pos: nat,
    depth: nat,
    far: Far,
) -> Step
    decreases input.len() - pos, rules.len() - depth, inner, 1 + rounds_left(max, count),
{
    if rounds_left(max, count) == 0 {
        stop_step(count >= min, pos, far)
    } else {
        let round = eval(rules, input, inner, pos, depth, far);
        if !advances(round, pos, input.len()) {
            stop_step(count >= min, pos, round.far)
        } else if max is None && round.pos == pos {
            round
        } else {
            joined_step(
                pos,
                round,
                eval_repeat(
                    rules,
                    input,
                    inner,
                    min,
                    max,
                    count + 1,
                    round.pos,
                    depth_after(depth, pos, round.pos),
                    round.far,
                ),
            )
        }
    }
}

/// The furthest failure as a syntax error on the input.
pub open spec fn failure_of(input: Seq<char>, far: Far) -> Failure {
    Failure { place: place_at(input, far.pos), expected: far.names }
}

/// What a parse is worth that evaluated its start rule to `step`.
///
/// The parse succeeds when the rule matched and the match ends at the end of the input; the
/// tree is then the node of that rule. Otherwise it fails with the furthest failure, among
/// which input after the end of the match counts as a failed attempt at the first character
/// that was not consumed.
pub open spec fn verdict(input: Seq<char>, step: Step) -> Result<Tree, Failure> {
    if step.matched && step.pos == input.len() {
        Ok(step.nodes[0])
    } else if step.matched {
        Err(failure_of(input, step.far.note(step.pos, end_of_input())))
    } else {
        Err(failure_of(input, step.far))
    }
}

/// The result of parsing the whole input from the rule `start`: the verdict on the evaluation
/// of a reference to that rule at the first character, with no failure met yet.
pub open spec fn outcome(rules: Seq<RuleModel>, start: Seq<char>, input: Seq<char>) -> Result<
    Tree,
    Failure,
> {
    verdict(input, eval(rules, input, Peg::RuleRef(start), 0, 0, Far::none()))
}

} // verus!
