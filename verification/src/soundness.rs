//! What every step of an evaluation is like: where it leaves off, what nodes it hands back,
//! and what it does to the furthest failure.

use vstd::prelude::*;
use crate::grammar::{lookup, Peg, RuleModel};
use crate::semantics::{
    advances, class_name, depth_after, eval, eval_choice, eval_repeat, eval_sequence,
    literal_name, rounds_left, terminal, Far, Step,
};
use crate::tree::{lemma_tiled_concat, lemma_tiled_single, tiled};

verus! {

/// Whether `step` is a sound result of an evaluation that started at `from` with the furthest
/// failure `far`, on an input of `len` characters.
///
/// A match leaves off between `from` and the end of the input, and its nodes lie one behind
/// the other from `from` to where it leaves off. A failure leaves off at `from`, with no nodes.
/// The furthest failure never moves back, and never beyond the end of the input.
pub open spec fn sound(step: Step, from: nat, len: nat, far: Far) -> bool {
    &&& step.matched ==> from <= step.pos <= len
    &&& !step.matched ==> step.pos == from && step.nodes.len() == 0
    &&& tiled(step.nodes, from, step.pos)
    &&& far.pos <= step.far.pos
    &&& far.pos <= len ==> step.far.pos <= len
    &&& far.well_formed() ==> step.far.well_formed()
}

/// Noting a failure keeps the furthest failure well formed, at the later of the two positions,
/// and with a name in it.
pub proof fn lemma_note(far: Far, pos: nat, name: Seq<char>)
    ensures
        far.note(pos, name).pos == if pos > far.pos {
            pos
        } else {
            far.pos
        },
        far.well_formed() ==> far.note(pos, name).well_formed(),
        far.well_formed() ==> far.note(pos, name).names.len() > 0,
        pos >= far.pos ==> far.note(pos, name).names.contains(name),
{
    let noted = far.note(pos, name);
    if pos > far.pos {
        assert(noted.names[0] == name);
    } else if pos == far.pos && !far.names.contains(name) {
        assert(noted.names[far.names.len() as int] == name);
        assert(far.well_formed() ==> noted.names.no_duplicates()) by {
            assert forall|i: int, j: int|
                far.well_formed() && 0 <= i < noted.names.len() && 0 <= j < noted.names.len() && i
                    != j implies noted.names[i] != noted.names[j] by {
                if i < far.names.len() {
                    assert(far.names.contains(far.names[i]));
                }
                if j < far.names.len() {
                    assert(far.names.contains(far.names[j]));
                }
            }
        }
    } else if pos == far.pos {
        assert(far.names.len() > 0) by {
            let i = choose|i: int| 0 <= i < far.names.len() && far.names[i] == name;
        }
    }
}

/// Every evaluation of an expression within the input is sound.
pub proof fn lemma_eval_sound(
    rules: Seq<RuleModel>,
    input: Seq<char>,
    e: Peg,
    pos: nat,
    depth: nat,
    far: Far,
)
    requires
        pos <= input.len(),
    ensures
        sound(eval(rules, input, e, pos, depth, far), pos, input.len(), far),
    decreases input.len() - pos, rules.len() - depth, e, 0nat,
{
    let step = eval(rules, input, e, pos, depth, far);
    match e {
        Peg::Literal(text) => {
            if step.matched {
                assert(terminal(pos, pos + text.len()).well_formed());
                lemma_tiled_single(terminal(pos, pos + text.len()));
            } else {
                lemma_note(far, pos, literal_name(text));
            }
        },
        Peg::Class(class) => {
            if step.matched {
                assert(terminal(pos, pos + 1).well_formed());
                lemma_tiled_single(terminal(pos, pos + 1));
            } else {
                lemma_note(far, pos, class_name(class));
            }
        },
        Peg::Sequence(items) => {
            lemma_eval_sequence_sound(rules, input, items, pos, depth, far);
        },
        Peg::Choice(items) => {
            lemma_eval_choice_sound(rules, input, items, pos, depth, far);
        },
        Peg::Repeat(inner, min, max) => {
            lemma_eval_repeat_sound(rules, input, *inner, min, max, 0, pos, depth, far);
        },
        Peg::Optional(inner) => {
            lemma_eval_sound(rules, input, *inner, pos, depth, far);
        },
        Peg::RuleRef(name) => {
            match lookup(rules, name) {
                Some(body) if depth < rules.len() => {
                    lemma_eval_sound(rules, input, body, pos, depth + 1, far);
                    if step.matched {
                        let node = step.nodes[0];
                        assert(node.well_formed());
                        lemma_tiled_single(node);
                    } else {
                        lemma_note(eval(rules, input, body, pos, depth + 1, far).far, pos, name);
                    }
                },
                _ => {
                    lemma_note(far, pos, name);
                },
            }
        },
    }
}

/// Every evaluation of a sequence within the input is sound.
pub proof fn lemma_eval_sequence_sound(
    rules: Seq<RuleModel>,
    input: Seq<char>,
    items: Seq<Peg>,
    pos: nat,
    depth: nat,
    far: Far,
)
    requires
        pos <= input.len(),
    ensures
        sound(eval_sequence(rules, input, items, pos, depth, far), pos, input.len(), far),
    decreases input.len() - pos, rules.len() - depth, items, 0nat,
{
    if items.len() > 0 {
        lemma_eval_sound(rules, input, items[0], pos, depth, far);
        let first = eval(rules, input, items[0], pos, depth, far);
        if first.matched {
            lemma_eval_sequence_sound(
                rules,
                input,
                items.drop_first(),
                first.pos,
                depth_after(depth, pos, first.pos),
                first.far,
            );
            let rest = eval_sequence(
                rules,
                input,
                items.drop_first(),
                first.pos,
                depth_after(depth, pos, first.pos),
                first.far,
            );
            if rest.matched {
                lemma_tiled_concat(first.nodes, rest.nodes, pos, first.pos, rest.pos);
            }
        }
    }
}

/// Every evaluation of a choice within the input is sound.
pub proof fn lemma_eval_choice_sound(
    rules: Seq<RuleModel>,
    input: Seq<char>,
    items: Seq<Peg>,
    pos: nat,
    depth: nat,
    far: Far,
)
    requires
        pos <= input.len(),
    ensures
        sound(eval_choice(rules, input, items, pos, depth, far), pos, input.len(), far),
    decreases input.len() - pos, rules.len() - depth, items, 0nat,
{
    if items.len() > 0 {
        lemma_eval_sound(rules, input, items[0], pos, depth, far);
        let first = eval(rules, input, items[0], pos, depth, far);
        if !first.matched {
            lemma_eval_choice_sound(rules, input, items.drop_first(), pos, depth, first.far);
        }
    }
}

/// Every evaluation of a repetition within the input is sound.
pub proof fn lemma_eval_repeat_sound(
    rules: Seq<RuleModel>,
    input: Seq<char>,
    inner: Peg,
    min: nat,
    max: Option<nat>,
    count: nat,
    pos: nat,
    depth: nat,
    far: Far,
)
    requires
        pos <= input.len(),
    ensures
        sound(
            eval_repeat(rules, input, inner, min, max, count, pos, depth, far),
            pos,
            input.len(),
            far,
        ),
    decreases input.len() - pos, rules.len() - depth, inner, 1 + rounds_left(max, count),
{
    if rounds_left(max, count) > 0 {
        lemma_eval_sound(rules, input, inner, pos, depth, far);
        let round = eval(rules, input, inner, pos, depth, far);
        if round.matched && !(max is None && round.pos == pos) {
            lemma_eval_repeat_sound(
                rules,
                input,
                inner,
                min,
                max,
                count + 1,
                round.pos,
                depth_after(depth, pos, round.pos),
                round.far,
            );
            let rest = eval_repeat(
                rules,
                input,
                inner,
                min,
                max,
                count + 1,
                round.pos,
                depth_after(depth, pos, round.pos),
                round.far,
            );
            if rest.matched {
                lemma_tiled_concat(round.nodes, rest.nodes, pos, round.pos, rest.pos);
            }
        }
    }
}

/// Whether two steps are the same but for the furthest failure.
pub open spec fn same_match(left: Step, right: Step) -> bool {
    left.matched == right.matched && left.pos == right.pos && left.nodes == right.nodes
}

/// What has failed before has no part in whether and how an expression matches.
pub proof fn lemma_far_irrelevant(
    rules: Seq<RuleModel>,
    input: Seq<char>,
    e: Peg,
    pos: nat,
    depth: nat,
    left: Far,
    right: Far,
)
    ensures
        same_match(
            eval(rules, input, e, pos, depth, left),
            eval(rules, input, e, pos, depth, right),
        ),
    decreases input.len() - pos, rules.len() - depth, e, 0nat,
{
    match e {
        Peg::Literal(_) => {},
        Peg::Class(_) => {},
        Peg::Sequence(items) => {
            lemma_far_irrelevant_sequence(rules, input, items, pos, depth, left, right);
        },
        Peg::Choice(items) => {
            lemma_far_irrelevant_choice(rules, input, items, pos, depth, left, right);
        },
        Peg::Repeat(inner, min, max) => {
            lemma_far_irrelevant_repeat(rules, input, *inner, min, max, 0, pos, depth, left, right);
        },
        Peg::Optional(inner) => {
            lemma_far_irrelevant(rules, input, *inner, pos, depth, left, right);
        },
        Peg::RuleRef(name) => {
            match lookup(rules, name) {
                Some(body) if depth < rules.len() => {
                    lemma_far_irrelevant(rules, input, body, pos, depth + 1, left, right);
                },
                _ => {},
            }
        },
    }
}

/// What has failed before has no part in whether and how a sequence matches.
pub proof fn lemma_far_irrelevant_sequence(
    rules: Seq<RuleModel>,
    input: Seq<char>,
    items: Seq<Peg>,
    pos: nat,
    depth: nat,
    left: Far,
    right: Far,
)
    ensures
        same_match(
            eval_sequence(rules, input, items, pos, depth, left),
            eval_sequence(rules, input, items, pos, depth, right),
        ),
    decreases input.len() - pos, rules.len() - depth, items, 0nat,
{
    if items.len() > 0 {
        lemma_far_irrelevant(rules, input, items[0], pos, depth, left, right);
        let first_left = eval(rules, input, items[0], pos, depth, left);
        let first_right = eval(rules, input, items[0], pos, depth, right);
        if advances(first_left, pos, input.len()) {
            lemma_far_irrelevant_sequence(
                rules,
                input,
                items.drop_first(),
                first_left.pos,
                depth_after(depth, pos, first_left.pos),
                first_left.far,
                first_right.far,
            );
        }
    }
}

/// What has failed before has no part in whether and how a choice matches.
pub proof fn lemma_far_irrelevant_choice(
    rules: Seq<RuleModel>,
    input: Seq<char>,
    items: Seq<Peg>,
    pos: nat,
    depth: nat,
    left: Far,
    right: Far,
)
    ensures
        same_match(
            eval_choice(rules, input, items, pos, depth, left),
            eval_choice(rules, input, items, pos, depth, right),
        ),
    decreases input.len() - pos, rules.len() - depth, items, 0nat,
{
    if items.len() > 0 {
        lemma_far_irrelevant(rules, input, items[0], pos, depth, left, right);
        let first_left = eval(rules, input, items[0], pos, depth, left);
        let first_right = eval(rules, input, items[0], pos, depth, right);
        if !first_left.matched {
            lemma_far_irrelevant_choice(
                rules,
                input,
                items.drop_first(),
                pos,
                depth,
                first_left.far,
                first_right.far,
            );
        }
    }
}

/// What has failed before has no part in whether and how a repetition matches.
pub proof fn lemma_far_irrelevant_repeat(
    rules: Seq<RuleModel>,
    input: Seq<char>,
    inner: Peg,
    min: nat,
    max: Option<nat>,
    count: nat,
    pos: nat,
    depth: nat,
    left: Far,
    right: Far,
)
    ensures
        same_match(
            eval_repeat(rules, input, inner, min, max, count, pos, depth, left),
            eval_repeat(rules, input, inner, min, max, count, pos, depth, right),
        ),
    decreases input.len() - pos, rules.len() - depth, inner, 1 + rounds_left(max, count),
{
    if rounds_left(max, count) > 0 {
        lemma_far_irrelevant(rules, input, inner, pos, depth, left, right);
        let round_left = eval(rules, input, inner, pos, depth, left);
        let round_right = eval(rules, input, inner, pos, depth, right);
        if advances(round_left, pos, input.len()) && !(max is None && round_left.pos == pos) {
            lemma_far_irrelevant_repeat(
                rules,
                input,
                inner,
                min,
                max,
                count + 1,
                round_left.pos,
                depth_after(depth, pos, round_left.pos),
                round_left.far,
                round_right.far,
            );
        }
    }
}

/// Whether every failure of `e` is the failure of a terminal or of a rule reference: no choice
/// in it is empty, and no repetition in it asks for more rounds than it allows.
pub open spec fn attempts(e: Peg) -> bool
    decreases e,
{
    match e {
        Peg::Literal(_) => true,
        Peg::Class(_) => true,
        Peg::Sequence(items) => forall|i: int| 0 <= i < items.len() ==> attempts(#[trigger] items[i]),
        Peg::Choice(items) => items.len() > 0 && forall|i: int|
            0 <= i < items.len() ==> attempts(#[trigger] items[i]),
        Peg::Repeat(inner, min, max) => attempts(*inner) && (max matches Some(m) ==> min <= m),
        Peg::Optional(_) => true,
        Peg::RuleRef(_) => true,
    }
}

/// A failure at `pos` leaves the furthest failure at `pos` or beyond.
pub proof fn lemma_failure_noted(
    rules: Seq<RuleModel>,
    input: Seq<char>,
    e: Peg,
    pos: nat,
    depth: nat,
    far: Far,
)
    requires
        pos <= input.len(),
        attempts(e),
    ensures
        !eval(rules, input, e, pos, depth, far).matched ==> eval(
            rules,
            input,
            e,
            pos,
            depth,
            far,
        ).far.pos >= pos,
    decreases input.len() - pos, rules.len() - depth, e, 0nat,
{
    match e {
        Peg::Literal(text) => {
            lemma_note(far, pos, literal_name(text));
        },
        Peg::Class(class) => {
            lemma_note(far, pos, class_name(class));
        },
        Peg::Sequence(items) => {
            lemma_sequence_failure_noted(rules, input, items, pos, depth, far);
        },
        Peg::Choice(items) => {
            lemma_choice_failure_noted(rules, input, items, pos, depth, far);
        },
        Peg::Repeat(inner, min, max) => {
            lemma_repeat_failure_noted(rules, input, *inner, min, max, 0, pos, depth, far);
        },
        Peg::Optional(_) => {},
        Peg::RuleRef(name) => {
            match lookup(rules, name) {
                Some(body) if depth < rules.len() => {
                    lemma_note(eval(rules, input, body, pos, depth + 1, far).far, pos, name);
                },
                _ => {
                    lemma_note(far, pos, name);
                },
            }
        },
    }
}

/// A sequence that fails at `pos` leaves the furthest failure at `pos` or beyond.
pub proof fn lemma_sequence_failure_noted(
    rules: Seq<RuleModel>,
    input: Seq<char>,
    items: Seq<Peg>,
    pos: nat,
    depth: nat,
    far: Far,
)
    requires
        pos <= input.len(),
        forall|i: int| 0 <= i < items.len() ==> attempts(#[trigger] items[i]),
    ensures
        !eval_sequence(rules, input, items, pos, depth, far).matched ==> eval_sequence(
            rules,
            input,
            items,
            pos,
            depth,
            far,
        ).far.pos >= pos,
    decreases input.len() - pos, rules.len() - depth, items, 0nat,
{
    if items.len() > 0 {
        lemma_failure_noted(rules, input, items[0], pos, depth, far);
        lemma_eval_sound(rules, input, items[0], pos, depth, far);
        let first = eval(rules, input, items[0], pos, depth, far);
        if first.matched {
            assert forall|i: int| 0 <= i < items.drop_first().len() implies attempts(
                #[trigger] items.drop_first()[i],
            ) by {
                assert(items.drop_first()[i] == items[i + 1]);
            }
            lemma_sequence_failure_noted(
                rules,
                input,
                items.drop_first(),
                first.pos,
                depth_after(depth, pos, first.pos),
                first.far,
            );
        }
    }
}

/// A choice that fails at `pos` leaves the furthest failure at `pos` or beyond, if it has an
/// alternative or the furthest failure was there before.
pub proof fn lemma_choice_failure_noted(
    rules: Seq<RuleModel>,
    input: Seq<char>,
    items: Seq<Peg>,
    pos: nat,
    depth: nat,
    far: Far,
)
    requires
        pos <= input.len(),
        items.len() > 0 || far.pos >= pos,
        forall|i: int| 0 <= i < items.len() ==> attempts(#[trigger] items[i]),
    ensures
        !eval_choice(rules, input, items, pos, depth, far).matched ==> eval_choice(
            rules,
            input,
            items,
            pos,
            depth,
            far,
        ).far.pos >= pos,
    decreases input.len() - pos, rules.len() - depth, items, 0nat,
{
    if items.len() > 0 {
        lemma_failure_noted(rules, input, items[0], pos, depth, far);
        let first = eval(rules, input, items[0], pos, depth, far);
        if !first.matched {
            assert forall|i: int| 0 <= i < items.drop_first().len() implies attempts(
                #[trigger] items.drop_first()[i],
            ) by {
                assert(items.drop_first()[i] == items[i + 1]);
            }
            lemma_choice_failure_noted(rules, input, items.drop_first(), pos, depth, first.far);
        }
    }
}

/// A repetition that fails at `pos` leaves the furthest failure at `pos` or beyond, if it does
/// not ask for more rounds than it allows.
pub proof fn lemma_repeat_failure_noted(
    rules: Seq<RuleModel>,
    input: Seq<char>,
    inner: Peg,
    min: nat,
    max: Option<nat>,
    count: nat,
    pos: nat,
    depth: nat,
    far: Far,
)
    requires
        pos <= input.len(),
        attempts(inner),
        max matches Some(m) ==> min <= m,
    ensures
        !eval_repeat(rules, input, inner, min, max, count, pos, depth, far).matched ==> eval_repeat(
            rules,
            input,
            inner,
            min,
            max,
            count,
            pos,
            depth,
            far,
        ).far.pos >= pos,
    decreases input.len() - pos, rules.len() - depth, inner, 1 + rounds_left(max, count),
{
    if rounds_left(max, count) > 0 {
        lemma_failure_noted(rules, input, inner, pos, depth, far);
        lemma_eval_sound(rules, input, inner, pos, depth, far);
        let round = eval(rules, input, inner, pos, depth, far);
        if round.matched && !(max is None && round.pos == pos) {
            lemma_repeat_failure_noted(
                rules,
                input,
                inner,
                min,
                max,
                count + 1,
                round.pos,
                depth_after(depth, pos, round.pos),
                round.far,
            );
        }
    }
}

} // verus!
