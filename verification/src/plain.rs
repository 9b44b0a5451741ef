//! Evaluation as the grammar reads, without guards, and its agreement with the engine's.
//!
//! The evaluation of `crate::semantics` ends on every grammar because of two guards. The one
//! defined here has none. It is given a budget instead: every entry into the body of a rule
//! and every further round of a repetition costs one unit, and an evaluation that runs out of
//! budget has no result. On a grammar with left recursion, or with a repetition without upper
//! bound whose body matches nothing, no budget is enough. Wherever some budget is, the guarded
//! evaluation gives the very same step: the guards are never met on the way.

use vstd::prelude::*;
use vstd::set_lib::*;
use crate::failure::Failure;
use crate::grammar::{index_from, lemma_index_from, lookup, Peg, RuleModel};
use crate::soundness::{lemma_eval_sound, same_match};
use crate::semantics::{
    class_step, depth_after, eval, eval_choice, eval_repeat, eval_sequence, fail, joined_step,
    literal_step, optional_step, outcome, rounds_left, rule_step, stop_step, verdict, Far, Step,
};
use crate::tree::Tree;

verus! {

/// Evaluates `e` at `pos` on a budget of `fuel`; `None` where the budget runs out.
pub open spec fn plain_eval(
    rules: Seq<RuleModel>,
    input: Seq<char>,
    e: Peg,
    pos: nat,
    far: Far,
    fuel: nat,
) -> Option<Step>
    decreases fuel, e, 0nat,
{
    match e {
        Peg::Literal(text) => Some(literal_step(input, text, pos, far)),
        Peg::Class(class) => Some(class_step(input, class, pos, far)),
        Peg::Sequence(items) => plain_sequence(rules, input, items, pos, far, fuel),
        Peg::Choice(items) => plain_choice(rules, input, items, pos, far, fuel),
        Peg::Repeat(inner, min, max) => plain_repeat(
            rules,
            input,
            *inner,
            min,
            max,
            0,
            pos,
            far,
            fuel,
        ),
        Peg::Optional(inner) => match plain_eval(rules, input, *inner, pos, far, fuel) {
            Some(once) => Some(optional_step(pos, once)),
            None => None,
        },
        Peg::RuleRef(name) => match lookup(rules, name) {
            Some(body) => if fuel == 0 {
                None
            } else {
                match plain_eval(rules, input, body, pos, far, (fuel - 1) as nat) {
                    Some(inner) => Some(rule_step(name, pos, inner)),
                    None => None,
                }
            },
            None => Some(fail(pos, far.note(pos, name))),
        },
    }
}

/// Evaluates the items one after the other on a budget of `fuel`.
pub open spec fn plain_sequence(
    rules: Seq<RuleModel>,
    input: Seq<char>,
    items: Seq<Peg>,
    pos: nat,
    far: Far,
    fuel: nat,
) -> Option<Step>
    decreases fuel, items, 0nat,
{
    if items.len() == 0 {
        Some(Step { matched: true, pos, nodes: Seq::empty(), far })
    } else {
        match plain_eval(rules, input, items[0], pos, far, fuel) {
            Some(first) => if !first.matched {
                Some(fail(pos, first.far))
            } else {
                match plain_sequence(rules, input, items.drop_first(), first.pos, first.far, fuel) {
                    Some(rest) => Some(joined_step(pos, first, rest)),
                    None => None,
                }
            },
            None => None,
        }
    }
}

/// Evaluates the alternatives in order on a budget of `fuel`.
pub open spec fn plain_choice(
    rules: Seq<RuleModel>,
    input: Seq<char>,
    items: Seq<Peg>,
    pos: nat,
    far: Far,
    fuel: nat,
) -> Option<Step>
    decreases fuel, items, 0nat,
{
    if items.len() == 0 {
        Some(fail(pos, far))
    } else {
        match plain_eval(rules, input, items[0], pos, far, fuel) {
            Some(first) => if first.matched {
                Some(first)
            } else {
                plain_choice(rules, input, items.drop_first(), pos, first.far, fuel)
            },
            None => None,
        }
    }
}

/// Evaluates `inner` again and again from `pos`, after `count` rounds that matched, on a
/// budget of `fuel`: up to `max` rounds in all, stopping at the first round that fails.
pub open spec fn plain_repeat(
    rules: Seq<RuleModel>,
    input: Seq<char>,
    inner: Peg,
    min: nat,
    max: Option<nat>,
    count: nat,
    pos: nat,
    far: Far,
    fuel: nat,
) -> Option<Step>
    decreases fuel, inner, 1nat,
{
    if rounds_left(max, count) == 0 {
        Some(stop_step(count >= min, pos, far))
    } else {
        match plain_eval(rules, input, inner, pos, far, fuel) {
            Some(round) => if !round.matched {
                Some(stop_step(count >= min, pos, round.far))
            } else if fuel == 0 {
                None
            } else {
                match plain_repeat(
                    rules,
                    input,
                    inner,
                    min,
                    max,
                    count + 1,
                    round.pos,
                    round.far,
                    (fuel - 1) as nat,
                ) {
                    Some(rest) => Some(joined_step(pos, round, rest)),
                    None => None,
                }
            },
            None => None,
        }
    }
}

/// The result of parsing the whole input from the rule `start` on a budget of `fuel`.
pub open spec fn plain_outcome(
    rules: Seq<RuleModel>,
    start: Seq<char>,
    input: Seq<char>,
    fuel: nat,
) -> Option<Result<Tree, Failure>> {
    match plain_eval(rules, input, Peg::RuleRef(start), 0, Far::none(), fuel) {
        Some(step) => Some(verdict(input, step)),
        None => None,
    }
}

/// A larger budget changes no result.
pub proof fn lemma_more_fuel(
    rules: Seq<RuleModel>,
    input: Seq<char>,
    e: Peg,
    pos: nat,
    far: Far,
    fuel: nat,
    more: nat,
)
    requires
        plain_eval(rules, input, e, pos, far, fuel) is Some,
        fuel <= more,
    ensures
        plain_eval(rules, input, e, pos, far, more) == plain_eval(rules, input, e, pos, far, fuel),
    decreases fuel, e, 0nat,
{
    match e {
        Peg::Literal(_) => {},
        Peg::Class(_) => {},
        Peg::Sequence(items) => {
            lemma_more_fuel_sequence(rules, input, items, pos, far, fuel, more);
        },
        Peg::Choice(items) => {
            lemma_more_fuel_choice(rules, input, items, pos, far, fuel, more);
        },
        Peg::Repeat(inner, min, max) => {
            lemma_more_fuel_repeat(rules, input, *inner, min, max, 0, pos, far, fuel, more);
        },
        Peg::Optional(inner) => {
            lemma_more_fuel(rules, input, *inner, pos, far, fuel, more);
        },
        Peg::RuleRef(name) => {
            match lookup(rules, name) {
                Some(body) => {
                    lemma_more_fuel(
                        rules,
                        input,
                        body,
                        pos,
                        far,
                        (fuel - 1) as nat,
                        (more - 1) as nat,
                    );
                },
                None => {},
            }
        },
    }
}

/// A larger budget changes no result of a sequence.
pub proof fn lemma_more_fuel_sequence(
    rules: Seq<RuleModel>,
    input: Seq<char>,
    items: Seq<Peg>,
    pos: nat,
    far: Far,
    fuel: nat,
    more: nat,
)
    requires
        plain_sequence(rules, input, items, pos, far, fuel) is Some,
        fuel <= more,
    ensures
        plain_sequence(rules, input, items, pos, far, more) == plain_sequence(
            rules,
            input,
            items,
            pos,
            far,
            fuel,
        ),
    decreases fuel, items, 0nat,
{
    if items.len() > 0 {
        lemma_more_fuel(rules, input, items[0], pos, far, fuel, more);
        let first = plain_eval(rules, input, items[0], pos, far, fuel)->0;
        if first.matched {
            lemma_more_fuel_sequence(
                rules,
                input,
                items.drop_first(),
                first.pos,
                first.far,
                fuel,
                more,
            );
        }
    }
}

/// A larger budget changes no result of a choice.
pub proof fn lemma_more_fuel_choice(
    rules: Seq<RuleModel>,
    input: Seq<char>,
    items: Seq<Peg>,
    pos: nat,
    far: Far,
    fuel: nat,
    more: nat,
)
    requires
        plain_choice(rules, input, items, pos, far, fuel) is Some,
        fuel <= more,
    ensures
        plain_choice(rules, input, items, pos, far, more) == plain_choice(
            rules,
            input,
            items,
            pos,
            far,
            fuel,
        ),
    decreases fuel, items, 0nat,
{
    if items.len() > 0 {
        lemma_more_fuel(rules, input, items[0], pos, far, fuel, more);
        let first = plain_eval(rules, input, items[0], pos, far, fuel)->0;
        if !first.matched {
            lemma_more_fuel_choice(rules, input, items.drop_first(), pos, first.far, fuel, more);
        }
    }
}

/// A larger budget changes no result of a repetition.
pub proof fn lemma_more_fuel_repeat(
    rules: Seq<RuleModel>,
    input: Seq<char>,
    inner: Peg,
    min: nat,
    max: Option<nat>,
    count: nat,
    pos: nat,
    far: Far,
    fuel: nat,
    more: nat,
)
    requires
        plain_repeat(rules, input, inner, min, max, count, pos, far, fuel) is Some,
        fuel <= more,
    ensures
        plain_repeat(rules, input, inner, min, max, count, pos, far, more) == plain_repeat(
            rules,
            input,
            inner,
            min,
            max,
            count,
            pos,
            far,
            fuel,
        ),
    decreases fuel, inner, 1nat,
{
    if rounds_left(max, count) > 0 {
        lemma_more_fuel(rules, input, inner, pos, far, fuel, more);
        let round = plain_eval(rules, input, inner, pos, far, fuel)->0;
        if round.matched {
            lemma_more_fuel_repeat(
                rules,
                input,
                inner,
                min,
                max,
                count + 1,
                round.pos,
                round.far,
                (fuel - 1) as nat,
                (more - 1) as nat,
            );
        }
    }
}

/// Whether two evaluations both ran out of budget, or both gave a step and the steps are the
/// same but for the furthest failure.
pub open spec fn same_result(left: Option<Step>, right: Option<Step>) -> bool {
    match (left, right) {
        (Some(l), Some(r)) => same_match(l, r),
        (None, None) => true,
        _ => false,
    }
}

/// What has failed before has no part in whether the budget is enough, nor in whether and how
/// an expression matches.
pub proof fn lemma_plain_far(
    rules: Seq<RuleModel>,
    input: Seq<char>,
    e: Peg,
    pos: nat,
    left: Far,
    right: Far,
    fuel: nat,
)
    ensures
        same_result(
            plain_eval(rules, input, e, pos, left, fuel),
            plain_eval(rules, input, e, pos, right, fuel),
        ),
    decreases fuel, e, 0nat,
{
    match e {
        Peg::Literal(_) => {},
        Peg::Class(_) => {},
        Peg::Sequence(items) => {
            lemma_plain_far_sequence(rules, input, items, pos, left, right, fuel);
        },
        Peg::Choice(items) => {
            lemma_plain_far_choice(rules, input, items, pos, left, right, fuel);
        },
        Peg::Repeat(inner, min, max) => {
            lemma_plain_far_repeat(rules, input, *inner, min, max, 0, pos, left, right, fuel);
        },
        Peg::Optional(inner) => {
            lemma_plain_far(rules, input, *inner, pos, left, right, fuel);
        },
        Peg::RuleRef(name) => {
            match lookup(rules, name) {
                Some(body) => {
                    if fuel > 0 {
                        lemma_plain_far(rules, input, body, pos, left, right, (fuel - 1) as nat);
                    }
                },
                None => {},
            }
        },
    }
}

/// What has failed before has no part in the result of a sequence.
pub proof fn lemma_plain_far_sequence(
    rules: Seq<RuleModel>,
    input: Seq<char>,
    items: Seq<Peg>,
    pos: nat,
    left: Far,
    right: Far,
    fuel: nat,
)
    ensures
        same_result(
            plain_sequence(rules, input, items, pos, left, fuel),
            plain_sequence(rules, input, items, pos, right, fuel),
        ),
    decreases fuel, items, 0nat,
{
    if items.len() > 0 {
        lemma_plain_far(rules, input, items[0], pos, left, right, fuel);
        match (
            plain_eval(rules, input, items[0], pos, left, fuel),
            plain_eval(rules, input, items[0], pos, right, fuel),
        ) {
            (Some(l), Some(r)) => {
                if l.matched {
                    lemma_plain_far_sequence(
                        rules,
                        input,
                        items.drop_first(),
                        l.pos,
                        l.far,
                        r.far,
                        fuel,
                    );
                }
            },
            _ => {},
        }
    }
}

/// What has failed before has no part in the result of a choice.
pub proof fn lemma_plain_far_choice(
    rules: Seq<RuleModel>,
    input: Seq<char>,
    items: Seq<Peg>,
    pos: nat,
    left: Far,
    right: Far,
    fuel: nat,
)
    ensures
        same_result(
            plain_choice(rules, input, items, pos, left, fuel),
            plain_choice(rules, input, items, pos, right, fuel),
        ),
    decreases fuel, items, 0nat,
{
    if items.len() > 0 {
        lemma_plain_far(rules, input, items[0], pos, left, right, fuel);
        match (
            plain_eval(rules, input, items[0], pos, left, fuel),
            plain_eval(rules, input, items[0], pos, right, fuel),
        ) {
            (Some(l), Some(r)) => {
                if !l.matched {
                    lemma_plain_far_choice(
                        rules,
                        input,
                        items.drop_first(),
                        pos,
                        l.far,
                        r.far,
                        fuel,
                    );
                }
            },
            _ => {},
        }
    }
}

/// What has failed before has no part in the result of a repetition.
pub proof fn lemma_plain_far_repeat(
    rules: Seq<RuleModel>,
    input: Seq<char>,
    inner: Peg,
    min: nat,
    max: Option<nat>,
    count: nat,
    pos: nat,
    left: Far,
    right: Far,
    fuel: nat,
)
    ensures
        same_result(
            plain_repeat(rules, input, inner, min, max, count, pos, left, fuel),
            plain_repeat(rules, input, inner, min, max, count, pos, right, fuel),
        ),
    decreases fuel, inner, 1nat,
{
    if rounds_left(max, count) > 0 {
        lemma_plain_far(rules, input, inner, pos, left, right, fuel);
        match (
            plain_eval(rules, input, inner, pos, left, fuel),
            plain_eval(rules, input, inner, pos, right, fuel),
        ) {
            (Some(l), Some(r)) => {
                if l.matched && fuel > 0 {
                    lemma_plain_far_repeat(
                        rules,
                        input,
                        inner,
                        min,
                        max,
                        count + 1,
                        l.pos,
                        l.far,
                        r.far,
                        (fuel - 1) as nat,
                    );
                }
            },
            _ => {},
        }
    }
}

/// Two results of one expression at one position are the same but for the furthest failure,
/// whatever the budgets and whatever had failed before.
pub proof fn lemma_one_match(
    rules: Seq<RuleModel>,
    input: Seq<char>,
    e: Peg,
    pos: nat,
    left: Far,
    left_fuel: nat,
    right: Far,
    right_fuel: nat,
)
    requires
        plain_eval(rules, input, e, pos, left, left_fuel) is Some,
        plain_eval(rules, input, e, pos, right, right_fuel) is Some,
    ensures
        same_match(
            plain_eval(rules, input, e, pos, left, left_fuel)->0,
            plain_eval(rules, input, e, pos, right, right_fuel)->0,
        ),
{
    let most = if left_fuel <= right_fuel {
        right_fuel
    } else {
        left_fuel
    };
    lemma_more_fuel(rules, input, e, pos, left, left_fuel, most);
    lemma_more_fuel(rules, input, e, pos, right, right_fuel, most);
    lemma_plain_far(rules, input, e, pos, left, right, most);
}

/// The least budget on which an evaluation that has a result has one.
pub proof fn lemma_least_fuel(
    rules: Seq<RuleModel>,
    input: Seq<char>,
    e: Peg,
    pos: nat,
    far: Far,
    fuel: nat,
) -> (least: nat)
    requires
        plain_eval(rules, input, e, pos, far, fuel) is Some,
    ensures
        least <= fuel,
        plain_eval(rules, input, e, pos, far, least) == plain_eval(rules, input, e, pos, far, fuel),
        forall|less: nat| less < least ==> plain_eval(rules, input, e, pos, far, less) is None,
    decreases fuel,
{
    if fuel > 0 && plain_eval(rules, input, e, pos, far, (fuel - 1) as nat) is Some {
        lemma_more_fuel(rules, input, e, pos, far, (fuel - 1) as nat, fuel);
        lemma_least_fuel(rules, input, e, pos, far, (fuel - 1) as nat)
    } else {
        assert forall|less: nat| less < fuel implies plain_eval(
            rules,
            input,
            e,
            pos,
            far,
            less,
        ) is None by {
            if plain_eval(rules, input, e, pos, far, less) is Some {
                lemma_more_fuel(rules, input, e, pos, far, less, (fuel - 1) as nat);
            }
        }
        fuel
    }
}

/// A repetition without upper bound has no result on any budget where its body matches
/// without consuming a character.
pub proof fn lemma_idle_repeat_has_no_result(
    rules: Seq<RuleModel>,
    input: Seq<char>,
    inner: Peg,
    min: nat,
    count: nat,
    pos: nat,
    far: Far,
    fuel: nat,
    idle_far: Far,
    idle_fuel: nat,
)
    requires
        plain_eval(rules, input, inner, pos, idle_far, idle_fuel) matches Some(idle)
            && idle.matched && idle.pos == pos,
    ensures
        plain_repeat(rules, input, inner, min, None, count, pos, far, fuel) is None,
    decreases fuel,
{
    match plain_eval(rules, input, inner, pos, far, fuel) {
        Some(round) => {
            lemma_one_match(rules, input, inner, pos, far, fuel, idle_far, idle_fuel);
            if fuel > 0 {
                lemma_idle_repeat_has_no_result(
                    rules,
                    input,
                    inner,
                    min,
                    count + 1,
                    pos,
                    round.far,
                    (fuel - 1) as nat,
                    idle_far,
                    idle_fuel,
                );
            }
        },
        None => {},
    }
}

/// Whether `open` stands for `depth` rules of the grammar, each by its index.
pub open spec fn open_rules(rules: Seq<RuleModel>, open: Set<int>, depth: nat) -> bool {
    &&& open.finite()
    &&& open.len() == depth
    &&& forall|i: int| open.contains(i) ==> 0 <= i < rules.len()
}

/// Whether a reference at `pos` to any of the rules in `open` has no result on a budget of
/// `fuel` or less.
pub open spec fn blocked(
    rules: Seq<RuleModel>,
    input: Seq<char>,
    open: Set<int>,
    pos: nat,
    fuel: nat,
) -> bool {
    forall|i: int, far: Far, less: nat|
        open.contains(i) && less <= fuel ==> (#[trigger] plain_eval(
            rules,
            input,
            Peg::RuleRef(rules[i].name),
            pos,
            far,
            less,
        )) is None
}

/// The rules that are open after a step from `from` to `to`: none once a character has been
/// consumed.
pub open spec fn open_after(open: Set<int>, from: nat, to: nat) -> Set<int> {
    if to > from {
        Set::empty()
    } else {
        open
    }
}

/// Rules stay open, and references to them without result, over a step that does not go back.
proof fn lemma_open_after(
    rules: Seq<RuleModel>,
    input: Seq<char>,
    open: Set<int>,
    depth: nat,
    from: nat,
    to: nat,
    fuel: nat,
    less: nat,
)
    requires
        open_rules(rules, open, depth),
        blocked(rules, input, open, from, fuel),
        from <= to,
        less <= fuel,
    ensures
        open_rules(rules, open_after(open, from, to), depth_after(depth, from, to)),
        blocked(rules, input, open_after(open, from, to), to, less),
{
}

/// As many rules can be open as the grammar has, and no more.
proof fn lemma_room_for_one_more(rules: Seq<RuleModel>, open: Set<int>, depth: nat, i: int)
    requires
        open_rules(rules, open, depth),
        0 <= i < rules.len(),
        !open.contains(i),
    ensures
        depth < rules.len(),
        open_rules(rules, open.insert(i), depth + 1),
{
    let all = set_int_range(0, rules.len() as int);
    lemma_int_range(0, rules.len() as int);
    assert(open.insert(i).subset_of(all));
    lemma_len_subset(open.insert(i), all);
}

/// Where the unguarded evaluation has a result, the guarded evaluation gives the same step.
///
/// `open` holds the rules that the guarded evaluation has open at `pos`: a reference to any of
/// them would ask for itself again, so it has no result within the budget.
pub proof fn lemma_agree(
    rules: Seq<RuleModel>,
    input: Seq<char>,
    e: Peg,
    pos: nat,
    depth: nat,
    far: Far,
    fuel: nat,
    open: Set<int>,
)
    requires
        pos <= input.len(),
        plain_eval(rules, input, e, pos, far, fuel) is Some,
        open_rules(rules, open, depth),
        blocked(rules, input, open, pos, fuel),
    ensures
        eval(rules, input, e, pos, depth, far) == plain_eval(rules, input, e, pos, far, fuel)->0,
    decreases fuel, e, 0nat,
{
    match e {
        Peg::Literal(_) => {},
        Peg::Class(_) => {},
        Peg::Sequence(items) => {
            lemma_agree_sequence(rules, input, items, pos, depth, far, fuel, open);
        },
        Peg::Choice(items) => {
            lemma_agree_choice(rules, input, items, pos, depth, far, fuel, open);
        },
        Peg::Repeat(inner, min, max) => {
            lemma_agree_repeat(rules, input, *inner, min, max, 0, pos, depth, far, fuel, open);
        },
        Peg::Optional(inner) => {
            lemma_agree(rules, input, *inner, pos, depth, far, fuel, open);
        },
        Peg::RuleRef(name) => {
            match lookup(rules, name) {
                Some(body) => {
                    let i = index_from(rules, name, 0);
                    lemma_index_from(rules, name, 0);
                    assert(rules[i].name == name);
                    assert(!open.contains(i));
                    lemma_room_for_one_more(rules, open, depth, i);
                    let least = lemma_least_fuel(rules, input, e, pos, far, fuel);
                    assert(least > 0);
                    let within = (least - 1) as nat;
                    assert(blocked(rules, input, open.insert(i), pos, within)) by {
                        assert forall|j: int, other: Far, less: nat|
                            open.insert(i).contains(j) && less <= within implies (
                        #[trigger] plain_eval(
                            rules,
                            input,
                            Peg::RuleRef(rules[j].name),
                            pos,
                            other,
                            less,
                        )) is None by {
                            if j == i {
                                lemma_plain_far(rules, input, e, pos, far, other, less);
                            }
                        }
                    }
                    lemma_agree(rules, input, body, pos, depth + 1, far, within, open.insert(i));
                },
                None => {},
            }
        },
    }
}

/// Where the unguarded evaluation of a sequence has a result, the guarded one gives the same.
pub proof fn lemma_agree_sequence(
    rules: Seq<RuleModel>,
    input: Seq<char>,
    items: Seq<Peg>,
    pos: nat,
    depth: nat,
    far: Far,
    fuel: nat,
    open: Set<int>,
)
    requires
        pos <= input.len(),
        plain_sequence(rules, input, items, pos, far, fuel) is Some,
        open_rules(rules, open, depth),
        blocked(rules, input, open, pos, fuel),
    ensures
        eval_sequence(rules, input, items, pos, depth, far) == plain_sequence(
            rules,
            input,
            items,
            pos,
            far,
            fuel,
        )->0,
    decreases fuel, items, 0nat,
{
    if items.len() > 0 {
        lemma_agree(rules, input, items[0], pos, depth, far, fuel, open);
        lemma_eval_sound(rules, input, items[0], pos, depth, far);
        let first = eval(rules, input, items[0], pos, depth, far);
        if first.matched {
            lemma_open_after(rules, input, open, depth, pos, first.pos, fuel, fuel);
            lemma_agree_sequence(
                rules,
                input,
                items.drop_first(),
                first.pos,
                depth_after(depth, pos, first.pos),
                first.far,
                fuel,
                open_after(open, pos, first.pos),
            );
        }
    }
}

/// Where the unguarded evaluation of a choice has a result, the guarded one gives the same.
pub proof fn lemma_agree_choice(
    rules: Seq<RuleModel>,
    input: Seq<char>,
    items: Seq<Peg>,
    pos: nat,
    depth: nat,
    far: Far,
    fuel: nat,
    open: Set<int>,
)
    requires
        pos <= input.len(),
        plain_choice(rules, input, items, pos, far, fuel) is Some,
        open_rules(rules, open, depth),
        blocked(rules, input, open, pos, fuel),
    ensures
        eval_choice(rules, input, items, pos, depth, far) == plain_choice(
            rules,
            input,
            items,
            pos,
            far,
            fuel,
        )->0,
    decreases fuel, items, 0nat,
{
    if items.len() > 0 {
        lemma_agree(rules, input, items[0], pos, depth, far, fuel, open);
        let first = eval(rules, input, items[0], pos, depth, far);
        if !first.matched {
            lemma_agree_choice(rules, input, items.drop_first(), pos, depth, first.far, fuel, open);
        }
    }
}

/// Where the unguarded evaluation of a repetition has a result, the guarded one gives the
/// same.
pub proof fn lemma_agree_repeat(
    rules: Seq<RuleModel>,
    input: Seq<char>,
    inner: Peg,
    min: nat,
    max: Option<nat>,
    count: nat,
    pos: nat,
    depth: nat,
    far: Far,
    fuel: nat,
    open: Set<int>,
)
    requires
        pos <= input.len(),
        plain_repeat(rules, input, inner, min, max, count, pos, far, fuel) is Some,
        open_rules(rules, open, depth),
        blocked(rules, input, open, pos, fuel),
    ensures
        eval_repeat(rules, input, inner, min, max, count, pos, depth, far) == plain_repeat(
            rules,
            input,
            inner,
            min,
            max,
            count,
            pos,
            far,
            fuel,
        )->0,
    decreases fuel, inner, 1nat,
{
    if rounds_left(max, count) > 0 {
        lemma_agree(rules, input, inner, pos, depth, far, fuel, open);
        lemma_eval_sound(rules, input, inner, pos, depth, far);
        let round = eval(rules, input, inner, pos, depth, far);
        if round.matched {
            let within = (fuel - 1) as nat;
            if max is None && round.pos == pos {
                lemma_idle_repeat_has_no_result(
                    rules,
                    input,
                    inner,
                    min,
                    count + 1,
                    pos,
                    round.far,
                    within,
                    far,
                    fuel,
                );
            } else {
                lemma_open_after(rules, input, open, depth, pos, round.pos, fuel, within);
                lemma_agree_repeat(
                    rules,
                    input,
                    inner,
                    min,
                    max,
                    count + 1,
                    round.pos,
                    depth_after(depth, pos, round.pos),
                    round.far,
                    within,
                    open_after(open, pos, round.pos),
                );
            }
        }
    }
}

/// The guards are never met where evaluation as the grammar reads comes to an end: if parsing
/// without guards has a result on some budget, parsing with them has the same result.
pub proof fn law_agrees_with_plain(
    rules: Seq<RuleModel>,
    start: Seq<char>,
    input: Seq<char>,
    fuel: nat,
)
    ensures
        plain_outcome(rules, start, input, fuel) matches Some(result) ==> outcome(
            rules,
            start,
            input,
        ) == result,
{
    if plain_outcome(rules, start, input, fuel) is Some {
        lemma_agree(rules, input, Peg::RuleRef(start), 0, 0, Far::none(), fuel, Set::empty());
    }
}

} // verus!
