//! What holds of every parse, whatever the grammar and the input.
//!
//! Two more laws stand with what they are about: that a failed parse reports the furthest
//! failure, in [`crate::trace`], and that the engine's guards change no result of an
//! evaluation that ends without them, in [`crate::plain`].

use vstd::prelude::*;
use crate::engine::result_view;
use crate::failure::{place_at, SyntaxError};
use crate::grammar::{lookup, Peg, RuleModel};
use crate::klang::parse_text;
use crate::registry::{Grammar, Registry};
use crate::report::{report_text, summary_text};
use crate::semantics::{
    depth_after, end_of_input, eval, eval_choice, eval_repeat, eval_sequence, outcome, Far,
};
use crate::soundness::{
    attempts, lemma_eval_choice_sound, lemma_eval_sound, lemma_failure_noted,
    lemma_far_irrelevant, lemma_note, same_match,
};
use crate::tree::{rendering, Node};

verus! {

/// Two results of parsing one input from one rule of one grammar are the same, and so are
/// the texts made of them.
pub proof fn law_parse_is_deterministic(
    registry: Registry,
    start_rule: &str,
    input: &str,
    first: Result<Node, SyntaxError>,
    second: Result<Node, SyntaxError>,
)
    requires
        result_view(first) == outcome(registry@.rules, start_rule@, input@),
        result_view(second) == outcome(registry@.rules, start_rule@, input@),
    ensures
        result_view(first) == result_view(second),
        first matches Ok(tree) ==> second is Ok && rendering(tree@, Seq::empty()) == rendering(
            second->Ok_0@,
            Seq::empty(),
        ),
        first matches Err(error) ==> second is Err && summary_text(error@) == summary_text(
            second->Err_0@,
        ) && report_text(error@.place.offset, error@.expected, input@) == report_text(
            second->Err_0@.place.offset,
            second->Err_0@.expected,
            input@,
        ),
{
}

/// Two texts that `parse_to_text` may hand back for one source text and one grammar are the
/// same.
pub proof fn law_parse_to_text_is_deterministic(
    registry: Registry,
    code: &str,
    first: String,
    second: String,
)
    requires
        first@ == parse_text(registry@, code@),
        second@ == parse_text(registry@, code@),
    ensures
        first@ == second@,
{
}

/// In a valid grammar the start rule, and every name that a rule refers to, has a body.
pub proof fn law_references_resolve(grammar: Grammar, name: Seq<char>)
    requires
        grammar.valid(),
        grammar.mentions(name),
    ensures
        lookup(grammar.rules, name) is Some,
{
}

/// A successful parse covers the input: its tree is the node of the start rule, it starts at
/// the first character and ends after the last, and the nodes below it lie one behind the
/// other without a gap.
pub proof fn law_success_covers_input(rules: Seq<RuleModel>, start: Seq<char>, input: Seq<char>)
    ensures
        outcome(rules, start, input) matches Ok(tree) ==> {
            &&& tree.rule == Some(start)
            &&& tree.start == 0
            &&& tree.end == input.len()
            &&& tree.well_formed()
        },
{
    lemma_eval_sound(rules, input, Peg::RuleRef(start), 0, 0, Far::none());
}

/// A failed parse points into the input or at its end, and names at least one thing that was
/// tried there, each once.
pub proof fn law_failure_is_placed(rules: Seq<RuleModel>, start: Seq<char>, input: Seq<char>)
    ensures
        outcome(rules, start, input) matches Err(failure) ==> {
            &&& failure.place.offset <= input.len()
            &&& failure.place == place_at(input, failure.place.offset)
            &&& failure.expected.len() > 0
            &&& failure.expected.no_duplicates()
        },
{
    lemma_eval_sound(rules, input, Peg::RuleRef(start), 0, 0, Far::none());
    let step = eval(rules, input, Peg::RuleRef(start), 0, 0, Far::none());
    if step.matched {
        lemma_note(step.far, step.pos, end_of_input());
    } else {
        match lookup(rules, start) {
            Some(body) if 0 < rules.len() => {
                lemma_eval_sound(rules, input, body, 0, 1, Far::none());
                lemma_note(eval(rules, input, body, 0, 1, Far::none()).far, 0, start);
            },
            _ => {
                lemma_note(Far::none(), 0, start);
            },
        }
    }
}

/// Where the first alternative matches, the choice is that match, whatever the later
/// alternatives would have matched.
pub proof fn law_first_alternative_wins(
    rules: Seq<RuleModel>,
    input: Seq<char>,
    items: Seq<Peg>,
    pos: nat,
    depth: nat,
    far: Far,
)
    requires
        items.len() > 0,
        eval(rules, input, items[0], pos, depth, far).matched,
    ensures
        eval(rules, input, Peg::Choice(items), pos, depth, far) == eval(
            rules,
            input,
            items[0],
            pos,
            depth,
            far,
        ),
{
    reveal_with_fuel(eval, 2);
    reveal_with_fuel(eval_choice, 2);
}

/// A choice matches as the first of its alternatives that matches at the position does, and
/// fails where none does.
pub proof fn law_choice_is_first_match(
    rules: Seq<RuleModel>,
    input: Seq<char>,
    items: Seq<Peg>,
    pos: nat,
    depth: nat,
    far: Far,
    k: int,
)
    requires
        0 <= k <= items.len(),
        forall|i: int|
            0 <= i < k ==> !(#[trigger] eval(rules, input, items[i], pos, depth, far)).matched,
        k < items.len() ==> eval(rules, input, items[k], pos, depth, far).matched,
    ensures
        k < items.len() ==> same_match(
            eval(rules, input, Peg::Choice(items), pos, depth, far),
            eval(rules, input, items[k], pos, depth, far),
        ),
        k == items.len() ==> !eval(rules, input, Peg::Choice(items), pos, depth, far).matched,
{
    lemma_choice_from(rules, input, items, pos, depth, far, far, k);
}

/// The choice among the alternatives is decided by the first that matches.
proof fn lemma_choice_from(
    rules: Seq<RuleModel>,
    input: Seq<char>,
    items: Seq<Peg>,
    pos: nat,
    depth: nat,
    far: Far,
    before: Far,
    k: int,
)
    requires
        0 <= k <= items.len(),
        forall|i: int|
            0 <= i < k ==> !(#[trigger] eval(rules, input, items[i], pos, depth, far)).matched,
        k < items.len() ==> eval(rules, input, items[k], pos, depth, far).matched,
    ensures
        k < items.len() ==> same_match(
            eval_choice(rules, input, items, pos, depth, before),
            eval(rules, input, items[k], pos, depth, far),
        ),
        k == items.len() ==> !eval_choice(rules, input, items, pos, depth, before).matched,
    decreases items.len(),
{
    if items.len() > 0 {
        lemma_far_irrelevant(rules, input, items[0], pos, depth, before, far);
        let first = eval(rules, input, items[0], pos, depth, before);
        if k > 0 {
            assert(!eval(rules, input, items[0], pos, depth, far).matched);
            let rest = items.drop_first();
            assert forall|i: int| 0 <= i < k - 1 implies !(#[trigger] eval(
                rules,
                input,
                rest[i],
                pos,
                depth,
                far,
            )).matched by {
                assert(rest[i] == items[i + 1]);
            }
            if k < items.len() {
                assert(rest[k - 1] == items[k]);
            }
            lemma_choice_from(rules, input, rest, pos, depth, far, first.far, k - 1);
        }
    }
}

/// A sequence that fails leaves off at the position at which it started, and hands back no
/// node of the items that had matched.
pub proof fn law_failed_sequence_rewinds(
    rules: Seq<RuleModel>,
    input: Seq<char>,
    items: Seq<Peg>,
    pos: nat,
    depth: nat,
    far: Far,
)
    ensures
        !eval(rules, input, Peg::Sequence(items), pos, depth, far).matched ==> {
            &&& eval(rules, input, Peg::Sequence(items), pos, depth, far).pos == pos
            &&& eval(rules, input, Peg::Sequence(items), pos, depth, far).nodes.len() == 0
        },
{
    reveal_with_fuel(eval, 2);
    reveal_with_fuel(eval_sequence, 2);
}

/// A repetition that stops below its minimum leaves off at the position at which it started,
/// and hands back no node of the rounds that had matched.
pub proof fn law_failed_repeat_rewinds(
    rules: Seq<RuleModel>,
    input: Seq<char>,
    inner: Peg,
    min: nat,
    max: Option<nat>,
    pos: nat,
    depth: nat,
    far: Far,
)
    ensures
        !eval(rules, input, Peg::Repeat(Box::new(inner), min, max), pos, depth, far).matched ==> {
            &&& eval(rules, input, Peg::Repeat(Box::new(inner), min, max), pos, depth, far).pos
                == pos
            &&& eval(
                rules,
                input,
                Peg::Repeat(Box::new(inner), min, max),
                pos,
                depth,
                far,
            ).nodes.len() == 0
        },
{
    reveal_with_fuel(eval, 2);
    reveal_with_fuel(eval_repeat, 2);
}

/// A choice that goes on to a later alternative keeps what failed furthest in the earlier
/// ones.
pub proof fn law_backtracking_keeps_furthest(
    rules: Seq<RuleModel>,
    input: Seq<char>,
    items: Seq<Peg>,
    pos: nat,
    depth: nat,
    far: Far,
)
    requires
        pos <= input.len(),
        items.len() > 0,
    ensures
        eval(rules, input, Peg::Choice(items), pos, depth, far).far.pos >= eval(
            rules,
            input,
            items[0],
            pos,
            depth,
            far,
        ).far.pos,
{
    reveal_with_fuel(eval, 2);
    reveal_with_fuel(eval_choice, 2);
    let first = eval(rules, input, items[0], pos, depth, far);
    if !first.matched {
        lemma_eval_choice_sound(rules, input, items.drop_first(), pos, depth, first.far);
    }
}

/// Whatever is evaluated, the furthest failure after it lies no earlier than before it; and
/// where the evaluation fails, no earlier than the position at which it was tried.
pub proof fn law_furthest_failure_is_kept(
    rules: Seq<RuleModel>,
    input: Seq<char>,
    e: Peg,
    pos: nat,
    depth: nat,
    far: Far,
)
    requires
        pos <= input.len(),
    ensures
        eval(rules, input, e, pos, depth, far).far.pos >= far.pos,
        attempts(e) && !eval(rules, input, e, pos, depth, far).matched ==> eval(
            rules,
            input,
            e,
            pos,
            depth,
            far,
        ).far.pos >= pos,
{
    lemma_eval_sound(rules, input, e, pos, depth, far);
    if attempts(e) {
        lemma_failure_noted(rules, input, e, pos, depth, far);
    }
}

/// An optional expression is the repetition of it at most once.
pub proof fn law_optional_is_repeat(
    rules: Seq<RuleModel>,
    input: Seq<char>,
    inner: Peg,
    pos: nat,
    depth: nat,
    far: Far,
)
    requires
        pos <= input.len(),
    ensures
        eval(rules, input, Peg::Optional(Box::new(inner)), pos, depth, far) == eval(
            rules,
            input,
            Peg::Repeat(Box::new(inner), 0, Some(1nat)),
            pos,
            depth,
            far,
        ),
{
    lemma_eval_sound(rules, input, inner, pos, depth, far);
    let once = eval(rules, input, inner, pos, depth, far);
    let first = eval_repeat(rules, input, inner, 0, Some(1nat), 0, pos, depth, far);
    if once.matched {
        let rest = eval_repeat(
            rules,
            input,
            inner,
            0,
            Some(1nat),
            1,
            once.pos,
            depth_after(depth, pos, once.pos),
            once.far,
        );
        assert(rest.nodes =~= Seq::empty());
        assert(once.nodes + rest.nodes =~= once.nodes);
    } else {
        assert(once.nodes =~= Seq::empty());
    }
}

} // verus!
