//! The parsing engine: ordered-choice recursive descent over a grammar.

use vstd::prelude::*;
use crate::failure::{Failure, Position, SyntaxError};
use crate::furthest::Furthest;
use crate::grammar::{bound_of, lemma_pegs_of, pegs_of, rules_of, Expr, Peg, Rule};
use crate::registry::{find, Registry};
use crate::semantics;
use crate::semantics::{literal_matches, outcome, Far, Step};
use crate::soundness::lemma_eval_sound;
use crate::text::chars_of;
use crate::tree::{lemma_trees_of, lemma_trees_of_concat, trees_of, Node, Tree};

verus! {

/// Whether what the engine found, and the furthest failure it left, are those of `step`.
spec fn agrees(found: Option<(usize, Vec<Node>)>, far: Furthest, step: Step) -> bool {
    &&& far@ == step.far
    &&& match found {
        Some((end, nodes)) => step.matched && step.pos == end && trees_of(nodes@) == step.nodes,
        None => !step.matched,
    }
}

/// Whether the input holds `text` at `pos`.
fn starts_with_at(input: &Vec<char>, pos: usize, text: &Vec<char>) -> (holds: bool)
    requires
        pos <= input.len(),
    ensures
        holds == literal_matches(input@, pos as nat, text@),
{
    if text.len() > input.len() - pos {
        return false;
    }
    let mut i: usize = 0;
    while i < text.len()
        invariant
            i <= text.len(),
            pos + text.len() <= input.len(),
            forall|j: int| 0 <= j < i ==> input@[pos + j] == text@[j],
        decreases text.len() - i,
    {
        if input[pos + i] != text[i] {
            proof {
                let part = input@.subrange(pos as int, (pos + text.len()) as int);
                assert(part[i as int] != text@[i as int]);
            }
            return false;
        }
        i += 1;
    }
    proof {
        assert(input@.subrange(pos as int, (pos + text.len()) as int) =~= text@);
    }
    true
}

/// The single node of a terminal that matched from `start` to `end`.
fn terminal_node(start: usize, end: usize) -> (nodes: Vec<Node>)
    ensures
        trees_of(nodes@) == seq![semantics::terminal(start as nat, end as nat)],
{
    let node = Node { rule: None, start, end, children: Vec::new() };
    let mut nodes: Vec<Node> = Vec::new();
    nodes.push(node);
    proof {
        lemma_trees_of(nodes@);
        assert(trees_of(node.children@) =~= Seq::empty());
        assert(trees_of(nodes@) =~= seq![semantics::terminal(start as nat, end as nat)]);
    }
    nodes
}

/// Evaluates `e` at `pos`, with `depth` rule references open at `pos`.
fn eval(
    rules: &Vec<Rule>,
    input: &Vec<char>,
    e: &Expr,
    pos: usize,
    depth: usize,
    far: &mut Furthest,
) -> (found: Option<(usize, Vec<Node>)>)
    requires
        pos <= input.len(),
        depth <= rules.len(),
    ensures
        agrees(
            found,
            *final(far),
            semantics::eval(rules_of(rules@), input@, e@, pos as nat, depth as nat, old(far)@),
        ),
        found matches Some((end, _)) ==> pos <= end <= input.len(),
    decreases input.len() - pos, rules.len() - depth, e, 0nat,
{
    match e {
        Expr::Literal(text) => {
            if starts_with_at(input, pos, text) {
                let end = pos + text.len();
                Some((end, terminal_node(pos, end)))
            } else {
                far.note_literal(pos, text);
                None
            }
        },
        Expr::Class(class) => {
            if pos < input.len() && class.accepts(input[pos]) {
                Some((pos + 1, terminal_node(pos, pos + 1)))
            } else {
                far.note_class(pos, class);
                None
            }
        },
        Expr::Sequence(items) => eval_sequence(rules, input, items, pos, depth, far),
        Expr::Choice(items) => eval_choice(rules, input, items, pos, depth, far),
        Expr::Repeat(inner, min, max) => eval_repeat(
            rules,
            input,
            inner,
            *min,
            *max,
            pos,
            depth,
            far,
        ),
        Expr::Optional(inner) => {
            let once = eval(rules, input, inner, pos, depth, far);
            match once {
                Some(found) => Some(found),
                None => {
                    let nodes: Vec<Node> = Vec::new();
                    assert(trees_of(nodes@) =~= Seq::empty());
                    Some((pos, nodes))
                },
            }
        },
        Expr::RuleRef(name) => {
            let index = find(rules, name);
            if index < rules.len() && depth < rules.len() {
                let inner = eval(rules, input, &rules[index].body, pos, depth + 1, far);
                match inner {
                    Some((end, children)) => {
                        let node = Node { rule: Some(name.clone()), start: pos, end, children };
                        let mut nodes: Vec<Node> = Vec::new();
                        nodes.push(node);
                        proof {
                            lemma_trees_of(nodes@);
                            assert(trees_of(nodes@) =~= seq![node@]);
                        }
                        Some((end, nodes))
                    },
                    None => {
                        far.note_rule(pos, name);
                        None
                    },
                }
            } else {
                far.note_rule(pos, name);
                None
            }
        },
    }
}

/// The step of a sequence or repetition that started at `from`, has gathered the nodes
/// `before`, and goes on as `rest`: a match with the nodes of both, or a failure back at `from`.
spec fn continued(from: nat, before: Seq<Tree>, rest: Step) -> Step {
    if rest.matched {
        Step { matched: true, pos: rest.pos, nodes: before + rest.nodes, far: rest.far }
    } else {
        semantics::fail(from, rest.far)
    }
}

/// Evaluates the items one after the other from `pos`.
fn eval_sequence(
    rules: &Vec<Rule>,
    input: &Vec<char>,
    items: &Vec<Expr>,
    pos: usize,
    depth: usize,
    far: &mut Furthest,
) -> (found: Option<(usize, Vec<Node>)>)
    requires
        pos <= input.len(),
        depth <= rules.len(),
    ensures
        agrees(
            found,
            *final(far),
            semantics::eval_sequence(
                rules_of(rules@),
                input@,
                pegs_of(items@),
                pos as nat,
                depth as nat,
                old(far)@,
            ),
        ),
        found matches Some((end, _)) ==> pos <= end <= input.len(),
    decreases input.len() - pos, rules.len() - depth, items, 0nat,
{
    let ghost model = rules_of(rules@);
    let ghost pegs = pegs_of(items@);
    let ghost whole = semantics::eval_sequence(
        model,
        input@,
        pegs,
        pos as nat,
        depth as nat,
        old(far)@,
    );
    let mut nodes: Vec<Node> = Vec::new();
    let mut at = pos;
    let mut open = depth;
    let mut i: usize = 0;
    proof {
        lemma_pegs_of(items@);
        assert(pegs.subrange(0, pegs.len() as int) =~= pegs);
        assert(trees_of(nodes@) =~= Seq::empty());
        assert(trees_of(nodes@) + whole.nodes =~= whole.nodes);
    }
    while i < items.len()
        invariant
            i <= items.len(),
            pos <= at <= input.len(),
            open <= rules.len(),
            at == pos ==> open == depth,
            model == rules_of(rules@),
            pegs == pegs_of(items@),
            pegs.len() == items.len(),
            forall|k: int| 0 <= k < items.len() ==> #[trigger] pegs[k] == items@[k]@,
            whole == semantics::eval_sequence(
                model,
                input@,
                pegs,
                pos as nat,
                depth as nat,
                old(far)@,
            ),
            whole == continued(
                pos as nat,
                trees_of(nodes@),
                semantics::eval_sequence(
                    model,
                    input@,
                    pegs.subrange(i as int, pegs.len() as int),
                    at as nat,
                    open as nat,
                    far@,
                ),
            ),
        decreases items.len() - i,
    {
        let ghost rest = pegs.subrange(i as int, pegs.len() as int);
        let ghost before = trees_of(nodes@);
        proof {
            assert(rest[0] == items@[i as int]@);
            assert(rest.drop_first() =~= pegs.subrange(i + 1, pegs.len() as int));
        }
        match eval(rules, input, &items[i], at, open, far) {
            None => {
                return None;
            },
            Some((end, mut more)) => {
                proof {
                    lemma_trees_of_concat(nodes@, more@);
                    let after = semantics::eval_sequence(
                        model,
                        input@,
                        rest.drop_first(),
                        end as nat,
                        semantics::depth_after(open as nat, at as nat, end as nat),
                        far@,
                    );
                    assert(before + (trees_of(more@) + after.nodes) =~= (before + trees_of(more@))
                        + after.nodes);
                }
                nodes.append(&mut more);
                if end > at {
                    open = 0;
                }
                at = end;
                i += 1;
            },
        }
    }
    proof {
        assert(pegs.subrange(i as int, pegs.len() as int) =~= Seq::empty());
        assert(trees_of(nodes@) + Seq::<Tree>::empty() =~= trees_of(nodes@));
    }
    Some((at, nodes))
}

/// Evaluates the alternatives in order, each at `pos`.
fn eval_choice(
    rules: &Vec<Rule>,
    input: &Vec<char>,
    items: &Vec<Expr>,
    pos: usize,
    depth: usize,
    far: &mut Furthest,
) -> (found: Option<(usize, Vec<Node>)>)
    requires
        pos <= input.len(),
        depth <= rules.len(),
    ensures
        agrees(
            found,
            *final(far),
            semantics::eval_choice(
                rules_of(rules@),
                input@,
                pegs_of(items@),
                pos as nat,
                depth as nat,
                old(far)@,
            ),
        ),
        found matches Some((end, _)) ==> pos <= end <= input.len(),
    decreases input.len() - pos, rules.len() - depth, items, 0nat,
{
    let ghost model = rules_of(rules@);
    let ghost pegs = pegs_of(items@);
    let ghost whole = semantics::eval_choice(
        model,
        input@,
        pegs,
        pos as nat,
        depth as nat,
        old(far)@,
    );
    let mut i: usize = 0;
    proof {
        lemma_pegs_of(items@);
        assert(pegs.subrange(0, pegs.len() as int) =~= pegs);
    }
    while i < items.len()
        invariant
            i <= items.len(),
            pos <= input.len(),
            depth <= rules.len(),
            model == rules_of(rules@),
            pegs == pegs_of(items@),
            pegs.len() == items.len(),
            forall|k: int| 0 <= k < items.len() ==> #[trigger] pegs[k] == items@[k]@,
            whole == semantics::eval_choice(
                model,
                input@,
                pegs,
                pos as nat,
                depth as nat,
                old(far)@,
            ),
            whole == semantics::eval_choice(
                model,
                input@,
                pegs.subrange(i as int, pegs.len() as int),
                pos as nat,
                depth as nat,
                far@,
            ),
        decreases items.len() - i,
    {
        let ghost rest = pegs.subrange(i as int, pegs.len() as int);
        proof {
            assert(rest[0] == items@[i as int]@);
            assert(rest.drop_first() =~= pegs.subrange(i + 1, pegs.len() as int));
        }
        match eval(rules, input, &items[i], pos, depth, far) {
            Some(found) => {
                return Some(found);
            },
            None => {
                i += 1;
            },
        }
    }
    proof {
        assert(pegs.subrange(i as int, pegs.len() as int) =~= Seq::empty());
    }
    None
}

/// Evaluates `inner` again and again from `pos`.
fn eval_repeat(
    rules: &Vec<Rule>,
    input: &Vec<char>,
    inner: &Expr,
    min: usize,
    max: Option<usize>,
    pos: usize,
    depth: usize,
    far: &mut Furthest,
) -> (found: Option<(usize, Vec<Node>)>)
    requires
        pos <= input.len(),
        depth <= rules.len(),
    ensures
        agrees(
            found,
            *final(far),
            semantics::eval_repeat(
                rules_of(rules@),
                input@,
                inner@,
                min as nat,
                bound_of(max),
                0,
                pos as nat,
                depth as nat,
                old(far)@,
            ),
        ),
        found matches Some((end, _)) ==> pos <= end <= input.len(),
    decreases input.len() - pos, rules.len() - depth, inner, 1nat,
{
    let ghost model = rules_of(rules@);
    let ghost whole = semantics::eval_repeat(
        model,
        input@,
        inner@,
        min as nat,
        bound_of(max),
        0,
        pos as nat,
        depth as nat,
        old(far)@,
    );
    let mut nodes: Vec<Node> = Vec::new();
    let mut at = pos;
    let mut open = depth;
    let mut count: usize = 0;
    proof {
        assert(trees_of(nodes@) =~= Seq::empty());
        assert(trees_of(nodes@) + whole.nodes =~= whole.nodes);
    }
    loop
        invariant
            pos <= at <= input.len(),
            open <= rules.len(),
            at == pos ==> open == depth,
            max is None ==> count <= at - pos,
            model == rules_of(rules@),
            whole == semantics::eval_repeat(
                model,
                input@,
                inner@,
                min as nat,
                bound_of(max),
                0,
                pos as nat,
                depth as nat,
                old(far)@,
            ),
            whole == continued(
                pos as nat,
                trees_of(nodes@),
                semantics::eval_repeat(
                    model,
                    input@,
                    inner@,
                    min as nat,
                    bound_of(max),
                    count as nat,
                    at as nat,
                    open as nat,
                    far@,
                ),
            ),
        decreases input.len() - at, semantics::rounds_left(bound_of(max), count as nat),
    {
        let ghost before = trees_of(nodes@);
        let full = match max {
            Some(m) => count >= m,
            None => false,
        };
        if full {
            proof {
                assert(before + Seq::<Tree>::empty() =~= before);
            }
            return if count >= min {
                Some((at, nodes))
            } else {
                None
            };
        }
        match eval(rules, input, inner, at, open, far) {
            None => {
                proof {
                    assert(before + Seq::<Tree>::empty() =~= before);
                }
                return if count >= min {
                    Some((at, nodes))
                } else {
                    None
                };
            },
            Some((end, mut more)) => {
                proof {
                    lemma_trees_of_concat(nodes@, more@);
                    let after = semantics::eval_repeat(
                        model,
                        input@,
                        inner@,
                        min as nat,
                        bound_of(max),
                        (count + 1) as nat,
                        end as nat,
                        semantics::depth_after(open as nat, at as nat, end as nat),
                        far@,
                    );
                    assert(before + (trees_of(more@) + after.nodes) =~= (before + trees_of(more@))
                        + after.nodes);
                }
                nodes.append(&mut more);
                if max.is_none() && end == at {
                    return Some((end, nodes));
                }
                if end > at {
                    open = 0;
                }
                at = end;
                count += 1;
            },
        }
    }
}

/// What evaluating one expression at one position gave.
#[derive(Debug, PartialEq, Eq)]
pub struct Attempt {
    /// Whether the expression matched.
    pub matched: bool,
    /// Where evaluation left off: the end of the match, or the starting position on failure.
    pub pos: usize,
    /// The nodes of the match, in input order; none on failure.
    pub nodes: Vec<Node>,
    /// The furthest failure met on the way.
    pub furthest: Furthest,
}

impl View for Attempt {
    type V = Step;

    open spec fn view(&self) -> Step {
        Step {
            matched: self.matched,
            pos: self.pos as nat,
            nodes: trees_of(self.nodes@),
            far: self.furthest@,
        }
    }
}

/// Evaluates `e` against the input from the position after `pos` characters, with no rule
/// reference open and no failure met yet. `None` where the input has fewer than `pos`
/// characters.
pub fn evaluate(registry: &Registry, e: &Expr, input: &str, pos: usize) -> (attempt: Option<
    Attempt,
>)
    ensures
        match attempt {
            Some(attempt) => pos <= input@.len() && attempt@ == semantics::eval(
                registry@.rules,
                input@,
                e@,
                pos as nat,
                0,
                Far::none(),
            ),
            None => pos > input@.len(),
        },
{
    let chars = chars_of(input);
    if pos > chars.len() {
        return None;
    }
    let mut furthest = Furthest::new();
    proof {
        lemma_eval_sound(registry@.rules, input@, e@, pos as nat, 0, Far::none());
    }
    match eval(registry.rules(), &chars, e, pos, 0, &mut furthest) {
        Some((end, nodes)) => Some(Attempt { matched: true, pos: end, nodes, furthest }),
        None => {
            let nodes: Vec<Node> = Vec::new();
            proof {
                let step = semantics::eval(
                    registry@.rules,
                    input@,
                    e@,
                    pos as nat,
                    0,
                    Far::none(),
                );
                assert(trees_of(nodes@) =~= step.nodes);
            }
            Some(Attempt { matched: false, pos, nodes, furthest })
        },
    }
}

/// The mathematical value of the result of a parse.
pub open spec fn result_view(result: Result<Node, SyntaxError>) -> Result<Tree, Failure> {
    match result {
        Ok(node) => Ok(node@),
        Err(error) => Err(error@),
    }
}

/// Parses the whole input from the rule `start_rule`.
///
/// Succeeds with the node of the start rule when that rule matches all of the input. Fails
/// otherwise, with the furthest position at which an attempt failed and the names of what was
/// tried there; input left over after the match counts as a failed attempt at its first
/// character.
pub fn parse(registry: &Registry, start_rule: &str, input: &str) -> (result: Result<
    Node,
    SyntaxError,
>)
    requires
        input@.len() < usize::MAX,
    ensures
        result_view(result) == outcome(registry@.rules, start_rule@, input@),
        result matches Ok(node) ==> node.start == 0 && node.end == input@.len(),
        result matches Err(error) ==> error.position.offset <= input@.len(),
{
    let chars = chars_of(input);
    let start = Expr::RuleRef(String::from_str(start_rule));
    let mut furthest = Furthest::new();
    proof {
        lemma_eval_sound(registry@.rules, input@, Peg::RuleRef(start_rule@), 0, 0, Far::none());
    }
    let found = eval(registry.rules(), &chars, &start, 0, 0, &mut furthest);
    match found {
        Some((end, mut nodes)) => {
            if end == chars.len() {
                proof {
                    lemma_trees_of(nodes@);
                }
                match nodes.pop() {
                    Some(node) => {
                        return Ok(node);
                    },
                    None => {},
                }
            }
            furthest.note(end, String::from_str("end of input"));
        },
        None => {},
    }
    let position = Position::locate(&chars, furthest.pos);
    Err(SyntaxError { position, expected: furthest.names })
}

} // verus!
