//! Grammar rules as combinator expressions, and the registry that holds them.

use vstd::prelude::*;
use crate::text::chars_of;

verus! {

/// A predicate on a single character.
#[derive(Clone, Debug, PartialEq, Eq)]
pub enum CharClass {
    /// Every character.
    Any,
    /// The characters from the first bound to the second, both included.
    Range(char, char),
    /// The listed characters.
    OneOf(Vec<char>),
    /// Every character but the listed ones.
    NoneOf(Vec<char>),
}

/// The mathematical value of a [`CharClass`].
pub enum ClassModel {
    Any,
    Range(char, char),
    OneOf(Seq<char>),
    NoneOf(Seq<char>),
}

impl ClassModel {
    /// Whether the class holds `c`.
    pub open spec fn accepts(self, c: char) -> bool {
        match self {
            ClassModel::Any => true,
            ClassModel::Range(lo, hi) => lo <= c && c <= hi,
            ClassModel::OneOf(chars) => chars.contains(c),
            ClassModel::NoneOf(chars) => !chars.contains(c),
        }
    }
}

impl View for CharClass {
    type V = ClassModel;

    open spec fn view(&self) -> ClassModel {
        match self {
            CharClass::Any => ClassModel::Any,
            CharClass::Range(lo, hi) => ClassModel::Range(*lo, *hi),
            CharClass::OneOf(chars) => ClassModel::OneOf(chars@),
            CharClass::NoneOf(chars) => ClassModel::NoneOf(chars@),
        }
    }
}

/// Whether `chars` holds `c`.
fn holds(chars: &Vec<char>, c: char) -> (found: bool)
    ensures
        found == chars@.contains(c),
{
    let mut i: usize = 0;
    while i < chars.len()
        invariant
            i <= chars.len(),
            forall|j: int| 0 <= j < i ==> chars@[j] != c,
        decreases chars.len() - i,
    {
        if chars[i] == c {
            return true;
        }
        i += 1;
    }
    false
}

impl CharClass {
    /// Tests one character against the class.
    pub fn accepts(&self, c: char) -> (ok: bool)
        ensures
            ok == self@.accepts(c),
    {
        match self {
            CharClass::Any => true,
            CharClass::Range(lo, hi) => *lo <= c && c <= *hi,
            CharClass::OneOf(chars) => holds(chars, c),
            CharClass::NoneOf(chars) => !holds(chars, c),
        }
    }
}

/// A combinator expression: the body of a grammar rule.
#[derive(Debug, PartialEq, Eq)]
pub enum Expr {
    /// The given text, character for character.
    Literal(Vec<char>),
    /// One character of the class.
    Class(CharClass),
    /// Every item, one after the other.
    Sequence(Vec<Expr>),
    /// The first alternative that matches.
    Choice(Vec<Expr>),
    /// The inner expression, as often as it matches: at least the first count, and at most
    /// the second where there is one.
    Repeat(Box<Expr>, usize, Option<usize>),
    /// The inner expression, or nothing.
    Optional(Box<Expr>),
    /// The body of the rule with the given name.
    RuleRef(String),
}

/// The mathematical value of an [`Expr`].
pub enum Peg {
    Literal(Seq<char>),
    Class(ClassModel),
    Sequence(Seq<Peg>),
    Choice(Seq<Peg>),
    Repeat(Box<Peg>, nat, Option<nat>),
    Optional(Box<Peg>),
    RuleRef(Seq<char>),
}

/// The upper bound of a repetition as a number.
pub open spec fn bound_of(max: Option<usize>) -> Option<nat> {
    match max {
        Some(m) => Some(m as nat),
        None => None,
    }
}

/// The mathematical value of an expression.
pub open spec fn peg_of(e: Expr) -> Peg
    decreases e,
{
    match e {
        Expr::Literal(text) => Peg::Literal(text@),
        Expr::Class(class) => Peg::Class(class@),
        Expr::Sequence(items) => Peg::Sequence(pegs_of(items@)),
        Expr::Choice(items) => Peg::Choice(pegs_of(items@)),
        Expr::Repeat(inner, min, max) => Peg::Repeat(
            Box::new(peg_of(*inner)),
            min as nat,
            bound_of(max),
        ),
        Expr::Optional(inner) => Peg::Optional(Box::new(peg_of(*inner))),
        Expr::RuleRef(name) => Peg::RuleRef(name@),
    }
}

/// The mathematical values of a list of expressions, in order.
pub open spec fn pegs_of(items: Seq<Expr>) -> Seq<Peg>
    decreases items,
{
    if items.len() == 0 {
        Seq::empty()
    } else {
        pegs_of(items.drop_last()).push(peg_of(items.last()))
    }
}

impl View for Expr {
    type V = Peg;

    open spec fn view(&self) -> Peg {
        peg_of(*self)
    }
}

/// `pegs_of` keeps the length and works item by item.
pub proof fn lemma_pegs_of(items: Seq<Expr>)
    ensures
        pegs_of(items).len() == items.len(),
        forall|i: int| 0 <= i < items.len() ==> #[trigger] pegs_of(items)[i] == peg_of(items[i]),
    decreases items.len(),
{
    if items.len() > 0 {
        lemma_pegs_of(items.drop_last());
    }
}

impl Expr {
    /// The expression that matches the given text.
    pub fn literal(text: &str) -> (e: Expr)
        ensures
            e@ == Peg::Literal(text@),
    {
        Expr::Literal(chars_of(text))
    }

    /// The expression that matches one character of the class.
    pub fn class(class: CharClass) -> (e: Expr)
        ensures
            e@ == Peg::Class(class@),
    {
        Expr::Class(class)
    }

    /// The expression that matches one character from `lo` to `hi`.
    pub fn range(lo: char, hi: char) -> (e: Expr)
        ensures
            e@ == Peg::Class(ClassModel::Range(lo, hi)),
    {
        Expr::Class(CharClass::Range(lo, hi))
    }

    /// The expression that matches the items one after the other.
    pub fn sequence(items: Vec<Expr>) -> (e: Expr)
        ensures
            e@ == Peg::Sequence(pegs_of(items@)),
    {
        Expr::Sequence(items)
    }

    /// The expression that matches the first of the alternatives that matches.
    pub fn choice(items: Vec<Expr>) -> (e: Expr)
        ensures
            e@ == Peg::Choice(pegs_of(items@)),
    {
        Expr::Choice(items)
    }

    /// The expression that matches `inner` at least `min` times, and at most `max` times where
    /// `max` is given.
    pub fn repeat(inner: Expr, min: usize, max: Option<usize>) -> (e: Expr)
        ensures
            e@ == Peg::Repeat(Box::new(inner@), min as nat, bound_of(max)),
    {
        Expr::Repeat(Box::new(inner), min, max)
    }

    /// The expression that matches `inner` or nothing.
    pub fn optional(inner: Expr) -> (e: Expr)
        ensures
            e@ == Peg::Optional(Box::new(inner@)),
    {
        Expr::Optional(Box::new(inner))
    }

    /// The expression that matches the body of the rule with the given name.
    pub fn rule(name: &str) -> (e: Expr)
        ensures
            e@ == Peg::RuleRef(name@),
    {
        Expr::RuleRef(String::from_str(name))
    }
}

/// A named rule as it is handed to the registry.
#[derive(Debug, PartialEq, Eq)]
pub struct Rule {
    pub name: String,
    pub body: Expr,
}

/// The mathematical value of a [`Rule`].
pub struct RuleModel {
    pub name: Seq<char>,
    pub body: Peg,
}

impl Rule {
    /// The rule with the given name and body.
    pub fn new(name: &str, body: Expr) -> (rule: Rule)
        ensures
            rule@ == (RuleModel { name: name@, body: body@ }),
    {
        Rule { name: String::from_str(name), body }
    }
}

impl View for Rule {
    type V = RuleModel;

    open spec fn view(&self) -> RuleModel {
        RuleModel { name: self.name@, body: self.body@ }
    }
}

/// The mathematical values of a list of rules, in order.
pub open spec fn rules_of(rules: Seq<Rule>) -> Seq<RuleModel> {
    Seq::new(rules.len(), |i: int| rules[i]@)
}

/// The index of the first rule at or after `from` that has the given name, or the number of
/// rules where there is none.
pub open spec fn index_from(rules: Seq<RuleModel>, name: Seq<char>, from: int) -> int
    decreases rules.len() - from,
{
    if from < 0 || from >= rules.len() {
        rules.len() as int
    } else if rules[from].name == name {
        from
    } else {
        index_from(rules, name, from + 1)
    }
}

/// Whether a rule has the given name.
pub open spec fn defines(rules: Seq<RuleModel>, name: Seq<char>) -> bool {
    index_from(rules, name, 0) < rules.len()
}

/// The body of the first rule with the given name.
pub open spec fn lookup(rules: Seq<RuleModel>, name: Seq<char>) -> Option<Peg> {
    if defines(rules, name) {
        Some(rules[index_from(rules, name, 0)].body)
    } else {
        None
    }
}

/// A name is defined exactly when some rule has it.
pub proof fn lemma_defines(rules: Seq<RuleModel>, name: Seq<char>)
    ensures
        defines(rules, name) <==> exists|i: int| 0 <= i < rules.len() && (#[trigger] rules[i]).name == name,
{
    lemma_index_from(rules, name, 0);
    if defines(rules, name) {
        assert(rules[index_from(rules, name, 0)].name == name);
    }
}

/// `index_from` finds the least index at or after `from` whose rule has the name.
pub proof fn lemma_index_from(rules: Seq<RuleModel>, name: Seq<char>, from: int)
    requires
        0 <= from <= rules.len(),
    ensures
        from <= index_from(rules, name, from) <= rules.len(),
        index_from(rules, name, from) < rules.len() ==> rules[index_from(rules, name, from)].name
            == name,
        forall|i: int| from <= i < index_from(rules, name, from) ==> (#[trigger] rules[i]).name != name,
    decreases rules.len() - from,
{
    if from < rules.len() && rules[from].name != name {
        lemma_index_from(rules, name, from + 1);
    }
}

} // verus!
