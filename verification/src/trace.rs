//! The failed attempts of an evaluation, and what the furthest failure keeps of them.
//!
//! The engine keeps one position and a list of names while it backtracks. This module says what
//! they are in terms of everything that failed on the way: the position is the furthest at
//! which any attempt failed, and the names are those of all the attempts that failed there.

use vstd::prelude::*;
use crate::grammar::{lookup, Peg, RuleModel};
use crate::semantics::{
    advances, class_name, depth_after, end_of_input, eval, eval_choice, eval_repeat,
    eval_sequence, literal_matches, literal_name, outcome, rounds_left, Far,
};

verus! {

/// A failed attempt: what was tried, and where.
pub struct Miss {
    pub pos: nat,
    pub name: Seq<char>,
}

/// The one failed attempt, or none.
pub open spec fn miss_unless(matched: bool, pos: nat, name: Seq<char>) -> Set<Miss> {
    if matched {
        Set::empty()
    } else {
        set![Miss { pos, name }]
    }
}

/// The attempts that fail while `e` is evaluated at `pos`: every terminal and every rule
/// reference that is tried and does not match, each with the position at which it was tried.
pub open spec fn misses(
    rules: Seq<RuleModel>,
    input: Seq<char>,
    e: Peg,
    pos: nat,
    depth: nat,
    far: Far,
) -> Set<Miss>
    decreases input.len() - pos, rules.len() - depth, e, 0nat,
{
    match e {
        Peg::Literal(text) => miss_unless(
            literal_matches(input, pos, text),
            pos,
            literal_name(text),
        ),
        Peg::Class(class) => miss_unless(
            pos < input.len() && class.accepts(input[pos as int]),
            pos,
            class_name(class),
        ),
        Peg::Sequence(items) => misses_of_sequence(rules, input, items, pos, depth, far),
        Peg::Choice(items) => misses_of_choice(rules, input, items, pos, depth, far),
        Peg::Repeat(inner, min, max) => misses_of_repeat(
            rules,
            input,
            *inner,
            min,
            max,
            0,
            pos,
            depth,
            far,
        ),
        Peg::Optional(inner) => misses(rules, input, *inner, pos, depth, far),
        Peg::RuleRef(name) => {
            match lookup(rules, name) {
                Some(body) if depth < rules.len() => misses(
                    rules,
                    input,
                    body,
                    pos,
                    depth + 1,
                    far,
                ) + miss_unless(
                    eval(rules, input, body, pos, depth + 1, far).matched,
                    pos,
                    name,
                ),
                _ => set![Miss { pos, name }],
            }
        },
    }
}

/// The attempts that fail while the items are evaluated one after the other.
pub open spec fn misses_of_sequence(
    rules: Seq<RuleModel>,
    input: Seq<char>,
    items: Seq<Peg>,
    pos: nat,
    depth: nat,
    far: Far,
) -> Set<Miss>
    decreases input.len() - pos, rules.len() - depth, items, 0nat,
{
    if items.len() == 0 {
        Set::empty()
    } else {
        let first = eval(rules, input, items[0], pos, depth, far);
        misses(rules, input, items[0], pos, depth, far) + if advances(first, pos, input.len()) {
            misses_of_sequence(
                rules,
                input,
                items.drop_first(),
                first.pos,
                depth_after(depth, pos, first.pos),
                first.far,
            )
        } else {
            Set::empty()
        }
    }
}

/// The attempts that fail while the alternatives are evaluated in order.
pub open spec fn misses_of_choice(
    rules: Seq<RuleModel>,
    input: Seq<char>,
    items: Seq<Peg>,
    pos: nat,
    depth: nat,
    far: Far,
) -> Set<Miss>
    decreases input.len() - pos, rules.len() - depth, items, 0nat,
{
    if items.len() == 0 {
        Set::empty()
    } else {
        let first = eval(rules, input, items[0], pos, depth, far);
        misses(rules, input, items[0], pos, depth, far) + if first.matched {
            Set::empty()
        } else {
            misses_of_choice(rules, input, items.drop_first(), pos, depth, first.far)
        }
    }
}

/// The attempts that fail while `inner` is evaluated again and again.
pub open spec fn misses_of_repeat(
    rules: Seq<RuleModel>,
    input: Seq<char>,
    inner: Peg,
    min: nat,
    max: Option<nat>,
    count: nat,
    pos: nat,
    depth: nat,
    far: Far,
) -> Set<Miss>
    decreases input.len() - pos, rules.len() - depth, inner, 1 + rounds_left(max, count),
{
    if rounds_left(max, count) == 0 {
        Set::empty()
    } else {
        let round = eval(rules, input, inner, pos, depth, far);
        misses(rules, input, inner, pos, depth, far) + if advances(round, pos, input.len()) && !(
        max is None && round.pos == pos) {
            misses_of_repeat(
                rules,
                input,
                inner,
                min,
                max,
                count + 1,
                round.pos,
                depth_after(depth, pos, round.pos),
                round.far,
            )
        } else {
            Set::empty()
        }
    }
}

/// Whether `after` is what the furthest failure `before` becomes once the attempts in `missed`
/// have failed: its position is the furthest of `before` and of all of them, and its names
/// are those that were tried there, before or among them.
pub open spec fn keeps(before: Far, missed: Set<Miss>, after: Far) -> bool {
    &&& before.pos <= after.pos
    &&& forall|m: Miss| #[trigger] missed.contains(m) ==> m.pos <= after.pos
    &&& forall|name: Seq<char>| #[trigger]
        after.names.contains(name) <==> (before.pos == after.pos && before.names.contains(name))
            || missed.contains(Miss { pos: after.pos, name })
}

/// Nothing failed, nothing changed.
pub proof fn lemma_keeps_nothing(far: Far)
    ensures
        keeps(far, Set::empty(), far),
{
}

/// Noting one failed attempt keeps it.
pub proof fn lemma_keeps_one(far: Far, pos: nat, name: Seq<char>)
    ensures
        keeps(far, set![Miss { pos, name }], far.note(pos, name)),
{
    let after = far.note(pos, name);
    let missed = set![Miss { pos, name }];
    assert forall|other: Seq<char>| #[trigger]
        after.names.contains(other) <==> (far.pos == after.pos && far.names.contains(other))
            || missed.contains(Miss { pos: after.pos, name: other }) by {
        if pos > far.pos {
            assert(after.names =~= seq![name]);
            assert(after.names[0] == name);
        } else if pos == far.pos && !far.names.contains(name) {
            assert(after.names =~= far.names.push(name));
            assert(after.names[far.names.len() as int] == name);
            if far.names.contains(other) {
                let i = choose|i: int| 0 <= i < far.names.len() && far.names[i] == other;
                assert(after.names[i] == other);
            }
        }
    }
}

/// What is kept of one run of attempts and then of another is kept of both.
pub proof fn lemma_keeps_both(
    before: Far,
    first: Set<Miss>,
    between: Far,
    second: Set<Miss>,
    after: Far,
)
    requires
        keeps(before, first, between),
        keeps(between, second, after),
    ensures
        keeps(before, first + second, after),
{
    let both = first + second;
    assert forall|name: Seq<char>| #[trigger]
        after.names.contains(name) <==> (before.pos == after.pos && before.names.contains(name))
            || both.contains(Miss { pos: after.pos, name }) by {
        let here = Miss { pos: after.pos, name };
        if between.pos == after.pos {
            assert(between.names.contains(name) <==> (before.pos == between.pos
                && before.names.contains(name)) || first.contains(here));
        } else {
            assert(first.contains(here) ==> here.pos <= between.pos);
        }
    }
}

/// The furthest failure after an evaluation keeps the attempts that failed in it.
pub proof fn lemma_eval_keeps(
    rules: Seq<RuleModel>,
    input: Seq<char>,
    e: Peg,
    pos: nat,
    depth: nat,
    far: Far,
)
    ensures
        keeps(
            far,
            misses(rules, input, e, pos, depth, far),
            eval(rules, input, e, pos, depth, far).far,
        ),
    decreases input.len() - pos, rules.len() - depth, e, 0nat,
{
    match e {
        Peg::Literal(text) => {
            lemma_keeps_nothing(far);
            lemma_keeps_one(far, pos, literal_name(text));
        },
        Peg::Class(class) => {
            lemma_keeps_nothing(far);
            lemma_keeps_one(far, pos, class_name(class));
        },
        Peg::Sequence(items) => {
            lemma_sequence_keeps(rules, input, items, pos, depth, far);
        },
        Peg::Choice(items) => {
            lemma_choice_keeps(rules, input, items, pos, depth, far);
        },
        Peg::Repeat(inner, min, max) => {
            lemma_repeat_keeps(rules, input, *inner, min, max, 0, pos, depth, far);
        },
        Peg::Optional(inner) => {
            lemma_eval_keeps(rules, input, *inner, pos, depth, far);
        },
        Peg::RuleRef(name) => {
            match lookup(rules, name) {
                Some(body) if depth < rules.len() => {
                    let inner = eval(rules, input, body, pos, depth + 1, far);
                    lemma_eval_keeps(rules, input, body, pos, depth + 1, far);
                    lemma_keeps_nothing(inner.far);
                    lemma_keeps_one(inner.far, pos, name);
                    lemma_keeps_both(
                        far,
                        misses(rules, input, body, pos, depth + 1, far),
                        inner.far,
                        miss_unless(inner.matched, pos, name),
                        eval(rules, input, e, pos, depth, far).far,
                    );
                },
                _ => {
                    lemma_keeps_one(far, pos, name);
                },
            }
        },
    }
}

/// The furthest failure after a sequence keeps the attempts that failed in it.
pub proof fn lemma_sequence_keeps(
    rules: Seq<RuleModel>,
    input: Seq<char>,
    items: Seq<Peg>,
    pos: nat,
    depth: nat,
    far: Far,
)
    ensures
        keeps(
            far,
            misses_of_sequence(rules, input, items, pos, depth, far),
            eval_sequence(rules, input, items, pos, depth, far).far,
        ),
    decreases input.len() - pos, rules.len() - depth, items, 0nat,
{
    if items.len() == 0 {
        lemma_keeps_nothing(far);
    } else {
        let first = eval(rules, input, items[0], pos, depth, far);
        lemma_eval_keeps(rules, input, items[0], pos, depth, far);
        if advances(first, pos, input.len()) {
            let next = depth_after(depth, pos, first.pos);
            lemma_sequence_keeps(rules, input, items.drop_first(), first.pos, next, first.far);
            lemma_keeps_both(
                far,
                misses(rules, input, items[0], pos, depth, far),
                first.far,
                misses_of_sequence(rules, input, items.drop_first(), first.pos, next, first.far),
                eval_sequence(rules, input, items, pos, depth, far).far,
            );
        } else {
            lemma_keeps_nothing(first.far);
            lemma_keeps_both(
                far,
                misses(rules, input, items[0], pos, depth, far),
                first.far,
                Set::empty(),
                first.far,
            );
        }
    }
}

/// The furthest failure after a choice keeps the attempts that failed in it.
pub proof fn lemma_choice_keeps(
    rules: Seq<RuleModel>,
    input: Seq<char>,
    items: Seq<Peg>,
    pos: nat,
    depth: nat,
    far: Far,
)
    ensures
        keeps(
            far,
            misses_of_choice(rules, input, items, pos, depth, far),
            eval_choice(rules, input, items, pos, depth, far).far,
        ),
    decreases input.len() - pos, rules.len() - depth, items, 0nat,
{
    if items.len() == 0 {
        lemma_keeps_nothing(far);
    } else {
        let first = eval(rules, input, items[0], pos, depth, far);
        lemma_eval_keeps(rules, input, items[0], pos, depth, far);
        if first.matched {
            lemma_keeps_nothing(first.far);
            lemma_keeps_both(
                far,
                misses(rules, input, items[0], pos, depth, far),
                first.far,
                Set::empty(),
                first.far,
            );
        } else {
            lemma_choice_keeps(rules, input, items.drop_first(), pos, depth, first.far);
            lemma_keeps_both(
                far,
                misses(rules, input, items[0], pos, depth, far),
                first.far,
                misses_of_choice(rules, input, items.drop_first(), pos, depth, first.far),
                eval_choice(rules, input, items, pos, depth, far).far,
            );
        }
    }
}

/// The furthest failure after a repetition keeps the attempts that failed in it.
pub proof fn lemma_repeat_keeps(
    rules: Seq<RuleModel>,
    input: Seq<char>,
    inner: Peg,
    min: nat,
    max: Option<nat>,
    count: nat,
    pos: nat,
    depth: nat,
    far: Far,
)
    ensures
        keeps(
            far,
            misses_of_repeat(rules, input, inner, min, max, count, pos, depth, far),
            eval_repeat(rules, input, inner, min, max, count, pos, depth, far).far,
        ),
    decreases input.len() - pos, rules.len() - depth, inner, 1 + rounds_left(max, count),
{
    if rounds_left(max, count) == 0 {
        lemma_keeps_nothing(far);
    } else {
        let round = eval(rules, input, inner, pos, depth, far);
        lemma_eval_keeps(rules, input, inner, pos, depth, far);
        if advances(round, pos, input.len()) && !(max is None && round.pos == pos) {
            let next = depth_after(depth, pos, round.pos);
            lemma_repeat_keeps(rules, input, inner, min, max, count + 1, round.pos, next, round.far);
            lemma_keeps_both(
                far,
                misses(rules, input, inner, pos, depth, far),
                round.far,
                misses_of_repeat(
                    rules,
                    input,
                    inner,
                    min,
                    max,
                    count + 1,
                    round.pos,
                    next,
                    round.far,
                ),
                eval_repeat(rules, input, inner, min, max, count, pos, depth, far).far,
            );
        } else {
            lemma_keeps_nothing(round.far);
            lemma_keeps_both(
                far,
                misses(rules, input, inner, pos, depth, far),
                round.far,
                Set::empty(),
                round.far,
            );
        }
    }
}

/// The attempts that fail in a parse of the whole input from the rule `start`: those of the
/// reference to that rule at the first character, and the end of the input where the rule
/// matched and input is left over.
pub open spec fn misses_of_parse(
    rules: Seq<RuleModel>,
    start: Seq<char>,
    input: Seq<char>,
) -> Set<Miss> {
    let step = eval(rules, input, Peg::RuleRef(start), 0, 0, Far::none());
    misses(rules, input, Peg::RuleRef(start), 0, 0, Far::none()) + miss_unless(
        !step.matched || step.pos == input.len(),
        step.pos,
        end_of_input(),
    )
}

/// A failed parse reports the furthest failure: no attempt failed beyond the position that it
/// reports, and the names that it lists are those of all the attempts that failed there.
pub proof fn law_report_is_furthest(rules: Seq<RuleModel>, start: Seq<char>, input: Seq<char>)
    ensures
        outcome(rules, start, input) matches Err(failure) ==> {
            &&& forall|m: Miss| #[trigger]
                misses_of_parse(rules, start, input).contains(m) ==> m.pos
                    <= failure.place.offset
            &&& forall|name: Seq<char>| #[trigger]
                failure.expected.contains(name) <==> misses_of_parse(rules, start, input).contains(
                    Miss { pos: failure.place.offset, name },
                )
        },
{
    let step = eval(rules, input, Peg::RuleRef(start), 0, 0, Far::none());
    let missed = misses(rules, input, Peg::RuleRef(start), 0, 0, Far::none());
    lemma_eval_keeps(rules, input, Peg::RuleRef(start), 0, 0, Far::none());
    if step.matched && step.pos != input.len() {
        let after = step.far.note(step.pos, end_of_input());
        lemma_keeps_one(step.far, step.pos, end_of_input());
        lemma_keeps_both(
            Far::none(),
            missed,
            step.far,
            set![Miss { pos: step.pos, name: end_of_input() }],
            after,
        );
    } else {
        lemma_keeps_nothing(step.far);
        lemma_keeps_both(Far::none(), missed, step.far, Set::empty(), step.far);
    }
}

} // verus!
