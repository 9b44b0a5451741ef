//! The grammar registry: a checked table of named rules.

use vstd::prelude::*;
use crate::grammar::{
    defines, index_from, lemma_index_from, lemma_pegs_of, lookup, pegs_of, rules_of, Expr, Peg,
    Rule, RuleModel,
};

verus! {

/// Why a set of definitions is no grammar.
#[derive(Clone, Debug, PartialEq, Eq)]
pub enum GrammarError {
    /// A rule refers to a name that no rule has.
    UndefinedRule(String),
    /// Two rules have the same name.
    DuplicateRule(String),
    /// No rule has the name of the start rule.
    MissingStartRule,
}

/// The mathematical value of a [`GrammarError`].
pub enum Fault {
    UndefinedRule(Seq<char>),
    DuplicateRule(Seq<char>),
    MissingStartRule,
}

impl View for GrammarError {
    type V = Fault;

    open spec fn view(&self) -> Fault {
        match self {
            GrammarError::UndefinedRule(name) => Fault::UndefinedRule(name@),
            GrammarError::DuplicateRule(name) => Fault::DuplicateRule(name@),
            GrammarError::MissingStartRule => Fault::MissingStartRule,
        }
    }
}

/// What a fault of a grammar says.
pub open spec fn fault_text(fault: Fault) -> Seq<char> {
    match fault {
        Fault::UndefinedRule(name) => "undefined rule "@ + name,
        Fault::DuplicateRule(name) => "duplicate rule "@ + name,
        Fault::MissingStartRule => "missing start rule"@,
    }
}

impl GrammarError {
    /// What the error says: its kind, and the name of the rule where it has one.
    pub fn message(&self) -> (text: String)
        ensures
            text@ == fault_text(self@),
    {
        match self {
            GrammarError::UndefinedRule(name) => {
                let mut text = String::from_str("undefined rule ");
                text.append(name.as_str());
                text
            },
            GrammarError::DuplicateRule(name) => {
                let mut text = String::from_str("duplicate rule ");
                text.append(name.as_str());
                text
            },
            GrammarError::MissingStartRule => String::from_str("missing start rule"),
        }
    }
}

/// The names that an expression refers to, from left to right, each as often as it occurs.
pub open spec fn refs(e: Peg) -> Seq<Seq<char>>
    decreases e,
{
    match e {
        Peg::Literal(_) => Seq::empty(),
        Peg::Class(_) => Seq::empty(),
        Peg::Sequence(items) => refs_all(items),
        Peg::Choice(items) => refs_all(items),
        Peg::Repeat(inner, _, _) => refs(*inner),
        Peg::Optional(inner) => refs(*inner),
        Peg::RuleRef(name) => seq![name],
    }
}

/// The names that the expressions refer to, from left to right.
pub open spec fn refs_all(items: Seq<Peg>) -> Seq<Seq<char>>
    decreases items,
{
    if items.len() == 0 {
        Seq::empty()
    } else {
        refs_all(items.drop_last()) + refs(items.last())
    }
}

/// The names that the bodies of the rules refer to, rule after rule.
pub open spec fn refs_of_rules(rules: Seq<RuleModel>) -> Seq<Seq<char>>
    decreases rules.len(),
{
    if rules.len() == 0 {
        Seq::empty()
    } else {
        refs_of_rules(rules.drop_last()) + refs(rules.last().body)
    }
}

/// The first of `names` that no rule has.
pub open spec fn first_missing(rules: Seq<RuleModel>, names: Seq<Seq<char>>) -> Option<Seq<char>>
    decreases names.len(),
{
    if names.len() == 0 {
        None
    } else {
        match first_missing(rules, names.drop_last()) {
            Some(name) => Some(name),
            None => if defines(rules, names.last()) {
                None
            } else {
                Some(names.last())
            },
        }
    }
}

/// The index of the first rule at or after `from` whose name an earlier rule has, or the number
/// of rules where there is none.
pub open spec fn duplicate_from(rules: Seq<RuleModel>, from: int) -> int
    decreases rules.len() - from,
{
    if from < 0 || from >= rules.len() {
        rules.len() as int
    } else if index_from(rules, rules[from].name, 0) < from {
        from
    } else {
        duplicate_from(rules, from + 1)
    }
}

/// What is wrong with the definitions, if anything: a name defined twice, else a reference to
/// a name that is not defined, else a start rule that is not defined.
pub open spec fn fault(rules: Seq<RuleModel>, start: Seq<char>) -> Option<Fault> {
    if duplicate_from(rules, 0) < rules.len() {
        Some(Fault::DuplicateRule(rules[duplicate_from(rules, 0)].name))
    } else {
        match first_missing(rules, refs_of_rules(rules)) {
            Some(name) => Some(Fault::UndefinedRule(name)),
            None => if defines(rules, start) {
                None
            } else {
                Some(Fault::MissingStartRule)
            },
        }
    }
}

/// The mathematical value of a [`Registry`]: its rules in order, and the name of its start rule.
pub struct Grammar {
    pub rules: Seq<RuleModel>,
    pub start: Seq<char>,
}

/// Whether no two rules have the same name.
pub open spec fn distinct_names(rules: Seq<RuleModel>) -> bool {
    forall|i: int, j: int| 0 <= i < j < rules.len() ==> rules[i].name != rules[j].name
}

/// Whether every name that a rule refers to is the name of a rule.
pub open spec fn closed(rules: Seq<RuleModel>) -> bool {
    forall|i: int, k: int|
        0 <= i < rules.len() && 0 <= k < refs(rules[i].body).len() ==> defines(
            rules,
            #[trigger] refs(rules[i].body)[k],
        )
}

impl Grammar {
    /// Every name is defined once, every reference leads to a rule, and so does the start.
    pub open spec fn valid(self) -> bool {
        &&& distinct_names(self.rules)
        &&& closed(self.rules)
        &&& defines(self.rules, self.start)
    }

    /// Whether the name is that of the start rule, or one that a rule refers to.
    pub open spec fn mentions(self, name: Seq<char>) -> bool {
        name == self.start || exists|i: int, k: int|
            0 <= i < self.rules.len() && 0 <= k < refs(self.rules[i].body).len() && #[trigger] refs(
                self.rules[i].body,
            )[k] == name
    }
}

/// `first_missing` goes through its list from left to right.
pub proof fn lemma_first_missing_concat(
    rules: Seq<RuleModel>,
    left: Seq<Seq<char>>,
    right: Seq<Seq<char>>,
)
    ensures
        first_missing(rules, left + right) == match first_missing(rules, left) {
            Some(name) => Some(name),
            None => first_missing(rules, right),
        },
    decreases right.len(),
{
    if right.len() == 0 {
        assert(left + right =~= left);
    } else {
        lemma_first_missing_concat(rules, left, right.drop_last());
        assert((left + right).drop_last() =~= left + right.drop_last());
        assert((left + right).last() == right.last());
    }
}

/// `first_missing` is `None` exactly when every name of the list is defined; else it is a name
/// of the list that is not.
pub proof fn lemma_first_missing(rules: Seq<RuleModel>, names: Seq<Seq<char>>)
    ensures
        first_missing(rules, names) is None <==> forall|k: int|
            0 <= k < names.len() ==> defines(rules, #[trigger] names[k]),
        first_missing(rules, names) matches Some(name) ==> names.contains(name) && !defines(
            rules,
            name,
        ),
    decreases names.len(),
{
    if names.len() > 0 {
        lemma_first_missing(rules, names.drop_last());
        let before = names.drop_last();
        if first_missing(rules, before) is None && defines(rules, names.last()) {
            assert forall|k: int| 0 <= k < names.len() implies defines(
                rules,
                #[trigger] names[k],
            ) by {
                if k < names.len() - 1 {
                    assert(before[k] == names[k]);
                }
            }
        } else if first_missing(rules, before) is None {
            assert(names[names.len() - 1] == names.last());
        } else {
            let k = choose|k: int| 0 <= k < before.len() && !defines(rules, #[trigger] before[k]);
            assert(before[k] == names[k]);
            let name = first_missing(rules, before)->0;
            let at = choose|at: int| 0 <= at < before.len() && before[at] == name;
            assert(names[at] == name);
        }
    }
}

/// The references of every rule are among the references of the rules.
pub proof fn lemma_refs_of_rules(rules: Seq<RuleModel>, i: int, k: int)
    requires
        0 <= i < rules.len(),
        0 <= k < refs(rules[i].body).len(),
    ensures
        refs_of_rules(rules).contains(refs(rules[i].body)[k]),
    decreases rules.len(),
{
    let before = refs_of_rules(rules.drop_last());
    if i == rules.len() - 1 {
        assert(refs_of_rules(rules)[before.len() + k] == refs(rules[i].body)[k]);
    } else {
        lemma_refs_of_rules(rules.drop_last(), i, k);
        let at = choose|at: int| 0 <= at < before.len() && before[at] == refs(rules[i].body)[k];
        assert(refs_of_rules(rules)[at] == before[at]);
    }
}

/// `duplicate_from` finds the least index at or after `from` whose name occurs before it.
pub proof fn lemma_duplicate_from(rules: Seq<RuleModel>, from: int)
    requires
        0 <= from <= rules.len(),
    ensures
        from <= duplicate_from(rules, from) <= rules.len(),
        duplicate_from(rules, from) < rules.len() ==> index_from(
            rules,
            rules[duplicate_from(rules, from)].name,
            0,
        ) < duplicate_from(rules, from),
        forall|j: int|
            from <= j < duplicate_from(rules, from) ==> index_from(
                rules,
                (#[trigger] rules[j]).name,
                0,
            ) >= j,
    decreases rules.len() - from,
{
    if from < rules.len() && index_from(rules, rules[from].name, 0) >= from {
        lemma_duplicate_from(rules, from + 1);
    }
}

/// Definitions are without fault exactly when they are a valid grammar.
pub proof fn lemma_fault_free_is_valid(rules: Seq<RuleModel>, start: Seq<char>)
    ensures
        fault(rules, start) is None <==> (Grammar { rules, start }).valid(),
{
    lemma_fault_meaning(rules, start);
    match fault(rules, start) {
        Some(Fault::DuplicateRule(name)) => {},
        Some(Fault::UndefinedRule(name)) => {
            let (i, k) = choose|i: int, k: int|
                0 <= i < rules.len() && 0 <= k < refs(rules[i].body).len() && #[trigger] refs(
                    rules[i].body,
                )[k] == name;
            assert(!defines(rules, refs(rules[i].body)[k]));
        },
        Some(Fault::MissingStartRule) => {},
        None => {},
    }
}

/// What each fault means: a name that two rules have; or, the names being distinct, a name
/// that some rule refers to and no rule has; or, all references leading to rules, a start rule
/// that no rule has the name of.
pub proof fn lemma_fault_meaning(rules: Seq<RuleModel>, start: Seq<char>)
    ensures
        match fault(rules, start) {
            Some(Fault::DuplicateRule(name)) => exists|i: int, j: int|
                0 <= i < j < rules.len() && #[trigger] rules[i].name == name
                    && #[trigger] rules[j].name == name,
            Some(Fault::UndefinedRule(name)) => {
                &&& distinct_names(rules)
                &&& !defines(rules, name)
                &&& exists|i: int, k: int|
                    0 <= i < rules.len() && 0 <= k < refs(rules[i].body).len() && #[trigger] refs(
                        rules[i].body,
                    )[k] == name
            },
            Some(Fault::MissingStartRule) => {
                &&& distinct_names(rules)
                &&& closed(rules)
                &&& !defines(rules, start)
            },
            None => (Grammar { rules, start }).valid(),
        },
{
    lemma_duplicate_from(rules, 0);
    lemma_first_missing(rules, refs_of_rules(rules));
    let later = duplicate_from(rules, 0);
    if later < rules.len() {
        let first = index_from(rules, rules[later].name, 0);
        lemma_index_from(rules, rules[later].name, 0);
        assert(rules[first].name == rules[later].name);
    } else {
        assert forall|i: int, j: int| 0 <= i < j < rules.len() implies rules[i].name
            != rules[j].name by {
            lemma_index_from(rules, rules[j].name, 0);
            assert(index_from(rules, rules[j].name, 0) >= j);
        }
        match first_missing(rules, refs_of_rules(rules)) {
            Some(name) => {
                lemma_refs_of_rules_origin(rules, name);
            },
            None => {
                assert forall|i: int, k: int|
                    0 <= i < rules.len() && 0 <= k < refs(rules[i].body).len() implies defines(
                    rules,
                    #[trigger] refs(rules[i].body)[k],
                ) by {
                    lemma_refs_of_rules(rules, i, k);
                }
            },
        }
    }
}

/// Every reference of the rules is a reference of one of them.
pub proof fn lemma_refs_of_rules_origin(rules: Seq<RuleModel>, name: Seq<char>)
    requires
        refs_of_rules(rules).contains(name),
    ensures
        exists|i: int, k: int|
            0 <= i < rules.len() && 0 <= k < refs(rules[i].body).len() && #[trigger] refs(
                rules[i].body,
            )[k] == name,
    decreases rules.len(),
{
    let all = refs_of_rules(rules);
    let at = choose|at: int| 0 <= at < all.len() && all[at] == name;
    if rules.len() > 0 {
        let before = refs_of_rules(rules.drop_last());
        if at < before.len() {
            assert(before[at] == name);
            lemma_refs_of_rules_origin(rules.drop_last(), name);
            let (i, k) = choose|i: int, k: int|
                0 <= i < rules.drop_last().len() && 0 <= k < refs(
                    rules.drop_last()[i].body,
                ).len() && #[trigger] refs(rules.drop_last()[i].body)[k] == name;
            assert(refs(rules[i].body)[k] == name);
        } else {
            let i = rules.len() - 1;
            let k = at - before.len();
            assert(refs(rules[i].body)[k] == name);
        }
    }
}

/// The index of the first rule with the given name, or the number of rules.
pub(crate) fn find(rules: &Vec<Rule>, name: &String) -> (index: usize)
    ensures
        index == index_from(rules_of(rules@), name@, 0),
        index <= rules.len(),
{
    let ghost model = rules_of(rules@);
    let mut i: usize = 0;
    while i < rules.len()
        invariant
            i <= rules.len(),
            model == rules_of(rules@),
            index_from(model, name@, 0) == index_from(model, name@, i as int),
        decreases rules.len() - i,
    {
        if rules[i].name == *name {
            return i;
        }
        i += 1;
    }
    i
}

/// The first name that the expression refers to and no rule has.
fn undefined_in(rules: &Vec<Rule>, e: &Expr) -> (missing: Option<String>)
    ensures
        match missing {
            Some(name) => first_missing(rules_of(rules@), refs(e@)) == Some(name@),
            None => first_missing(rules_of(rules@), refs(e@)) is None,
        },
    decreases e,
{
    let ghost model = rules_of(rules@);
    proof {
        assert(first_missing(model, Seq::empty()) is None);
    }
    match e {
        Expr::Literal(_) => None,
        Expr::Class(_) => None,
        Expr::Sequence(items) => undefined_in_all(rules, items),
        Expr::Choice(items) => undefined_in_all(rules, items),
        Expr::Repeat(inner, _, _) => undefined_in(rules, inner),
        Expr::Optional(inner) => undefined_in(rules, inner),
        Expr::RuleRef(name) => {
            proof {
                let names = refs(e@);
                assert(names.drop_last() =~= Seq::empty());
                assert(names.last() == name@);
            }
            if find(rules, name) < rules.len() {
                None
            } else {
                Some(name.clone())
            }
        },
    }
}

/// The first name that the expressions refer to and no rule has.
fn undefined_in_all(rules: &Vec<Rule>, items: &Vec<Expr>) -> (missing: Option<String>)
    ensures
        match missing {
            Some(name) => first_missing(rules_of(rules@), refs_all(pegs_of(items@))) == Some(
                name@,
            ),
            None => first_missing(rules_of(rules@), refs_all(pegs_of(items@))) is None,
        },
    decreases items,
{
    let ghost model = rules_of(rules@);
    let ghost pegs = pegs_of(items@);
    proof {
        lemma_pegs_of(items@);
    }
    let mut i: usize = 0;
    while i < items.len()
        invariant
            i <= items.len(),
            model == rules_of(rules@),
            pegs == pegs_of(items@),
            pegs.len() == items.len(),
            forall|k: int| 0 <= k < items.len() ==> #[trigger] pegs[k] == items@[k]@,
            first_missing(model, refs_all(pegs.take(i as int))) is None,
        decreases items.len() - i,
    {
        let found = undefined_in(rules, &items[i]);
        proof {
            let upto = pegs.take(i + 1);
            assert(upto.drop_last() =~= pegs.take(i as int));
            assert(upto.last() == pegs[i as int]);
            lemma_first_missing_concat(model, refs_all(pegs.take(i as int)), refs(pegs[i as int]));
            if found is Some {
                let rest = pegs.subrange(i + 1, pegs.len() as int);
                assert(pegs =~= upto + rest);
                lemma_refs_all_concat(upto, rest);
                lemma_first_missing_concat(model, refs_all(upto), refs_all(rest));
            }
        }
        if found.is_some() {
            return found;
        }
        i += 1;
    }
    proof {
        assert(pegs.take(items.len() as int) =~= pegs);
    }
    None
}

/// `refs_all` goes through concatenation.
pub proof fn lemma_refs_all_concat(left: Seq<Peg>, right: Seq<Peg>)
    ensures
        refs_all(left + right) == refs_all(left) + refs_all(right),
    decreases right.len(),
{
    if right.len() == 0 {
        assert(left + right =~= left);
        assert(refs_all(left) + refs_all(right) =~= refs_all(left));
    } else {
        lemma_refs_all_concat(left, right.drop_last());
        assert((left + right).drop_last() =~= left + right.drop_last());
        assert((left + right).last() == right.last());
        assert(refs_all(left + right) =~= refs_all(left) + refs_all(right));
    }
}

/// `refs_of_rules` goes through concatenation.
pub proof fn lemma_refs_of_rules_concat(left: Seq<RuleModel>, right: Seq<RuleModel>)
    ensures
        refs_of_rules(left + right) == refs_of_rules(left) + refs_of_rules(right),
    decreases right.len(),
{
    if right.len() == 0 {
        assert(left + right =~= left);
        assert(refs_of_rules(left) + refs_of_rules(right) =~= refs_of_rules(left));
    } else {
        lemma_refs_of_rules_concat(left, right.drop_last());
        assert((left + right).drop_last() =~= left + right.drop_last());
        assert((left + right).last() == right.last());
        assert(refs_of_rules(left + right) =~= refs_of_rules(left) + refs_of_rules(right));
    }
}

/// A checked table of named rules with a start rule.
///
/// A registry is made by [`Registry::load`] and never changes afterwards: every name in it is
/// defined once, every reference in it leads to a rule, and its start rule exists.
#[derive(Debug, PartialEq, Eq)]
pub struct Registry {
    rules: Vec<Rule>,
    start: String,
}

impl View for Registry {
    type V = Grammar;

    closed spec fn view(&self) -> Grammar {
        Grammar { rules: rules_of(self.rules@), start: self.start@ }
    }
}

impl Registry {
    #[verifier::type_invariant]
    spec fn checked(&self) -> bool {
        self@.valid()
    }

    /// Checks the definitions and makes a registry of them.
    ///
    /// Fails with the first name that two rules share, else with the first reference to a
    /// name that no rule has, else if no rule has the name `start`.
    pub fn load(definitions: Vec<Rule>, start: &str) -> (loaded: Result<Registry, GrammarError>)
        ensures
            match loaded {
                Ok(registry) => {
                    &&& fault(rules_of(definitions@), start@) is None
                    &&& registry@ == (Grammar { rules: rules_of(definitions@), start: start@ })
                    &&& registry@.valid()
                },
                Err(error) => fault(rules_of(definitions@), start@) == Some(error@),
            },
    {
        let ghost model = rules_of(definitions@);
        let mut j: usize = 0;
        while j < definitions.len()
            invariant
                j <= definitions.len(),
                model == rules_of(definitions@),
                duplicate_from(model, 0) == duplicate_from(model, j as int),
            decreases definitions.len() - j,
        {
            if find(&definitions, &definitions[j].name) < j {
                return Err(GrammarError::DuplicateRule(definitions[j].name.clone()));
            }
            j += 1;
        }
        let mut i: usize = 0;
        while i < definitions.len()
            invariant
                i <= definitions.len(),
                model == rules_of(definitions@),
                duplicate_from(model, 0) == model.len(),
                first_missing(model, refs_of_rules(model.take(i as int))) is None,
            decreases definitions.len() - i,
        {
            let found = undefined_in(&definitions, &definitions[i].body);
            proof {
                let upto = model.take(i + 1);
                assert(upto.drop_last() =~= model.take(i as int));
                assert(upto.last() == model[i as int]);
                lemma_first_missing_concat(
                    model,
                    refs_of_rules(model.take(i as int)),
                    refs(model[i as int].body),
                );
                if found is Some {
                    let rest = model.subrange(i + 1, model.len() as int);
                    assert(model =~= upto + rest);
                    lemma_refs_of_rules_concat(upto, rest);
                    lemma_first_missing_concat(model, refs_of_rules(upto), refs_of_rules(rest));
                }
            }
            match found {
                Some(name) => {
                    return Err(GrammarError::UndefinedRule(name));
                },
                None => {},
            }
            i += 1;
        }
        proof {
            assert(model.take(definitions.len() as int) =~= model);
        }
        let start_name = String::from_str(start);
        if find(&definitions, &start_name) >= definitions.len() {
            return Err(GrammarError::MissingStartRule);
        }
        proof {
            lemma_fault_free_is_valid(model, start@);
        }
        Ok(Registry { rules: definitions, start: start_name })
    }

    /// The body of the rule with the given name. The start rule has one, and so has every name
    /// that a rule of the registry refers to.
    pub fn rule(&self, name: &str) -> (body: Option<&Expr>)
        ensures
            self@.valid(),
            match body {
                Some(e) => lookup(self@.rules, name@) == Some(e@),
                None => lookup(self@.rules, name@) is None,
            },
            self@.mentions(name@) ==> body is Some,
    {
        proof {
            use_type_invariant(self);
        }
        let wanted = String::from_str(name);
        let index = find(&self.rules, &wanted);
        if index < self.rules.len() {
            Some(&self.rules[index].body)
        } else {
            None
        }
    }

    /// The rules in the order in which they were defined.
    pub fn rules(&self) -> (rules: &Vec<Rule>)
        ensures
            rules_of(rules@) == self@.rules,
            self@.valid(),
    {
        proof {
            use_type_invariant(self);
        }
        &self.rules
    }

    /// The name of the start rule.
    pub fn start(&self) -> (name: &str)
        ensures
            name@ == self@.start,
    {
        self.start.as_str()
    }

    /// The number of rules.
    pub fn len(&self) -> (count: usize)
        ensures
            count == self@.rules.len(),
    {
        self.rules.len()
    }
}

} // verus!
