//! The furthest failure of a parse, kept while the engine backtracks.

use vstd::prelude::*;
use crate::grammar::CharClass;
use crate::semantics::{class_name, literal_name, Far};
use crate::text::{push_chars, texts};

verus! {

/// The furthest position at which an attempt has failed, and the names tried there.
#[derive(Debug, PartialEq, Eq)]
pub struct Furthest {
    pub pos: usize,
    pub names: Vec<String>,
}

impl View for Furthest {
    type V = Far;

    open spec fn view(&self) -> Far {
        Far { pos: self.pos as nat, names: texts(self.names@) }
    }
}

/// Whether one of the strings holds the given text.
fn has_text(names: &Vec<String>, name: &String) -> (found: bool)
    ensures
        found == texts(names@).contains(name@),
{
    let mut i: usize = 0;
    while i < names.len()
        invariant
            i <= names.len(),
            forall|j: int| 0 <= j < i ==> texts(names@)[j] != name@,
        decreases names.len() - i,
    {
        if names[i] == *name {
            assert(texts(names@)[i as int] == name@);
            return true;
        }
        i += 1;
    }
    false
}

impl Furthest {
    /// The state before any attempt.
    pub fn new() -> (furthest: Furthest)
        ensures
            furthest@ == Far::none(),
    {
        let furthest = Furthest { pos: 0, names: Vec::new() };
        assert(furthest@.names =~= Seq::empty());
        furthest
    }

    /// Records that `name` was tried at `pos` and failed. An attempt before the furthest
    /// failure changes nothing; one beyond it replaces it.
    pub fn note(&mut self, pos: usize, name: String)
        ensures
            final(self)@ == old(self)@.note(pos as nat, name@),
    {
        if pos > self.pos {
            let mut names: Vec<String> = Vec::new();
            names.push(name);
            self.pos = pos;
            self.names = names;
            assert(self@.names =~= seq![name@]);
        } else if pos == self.pos && !has_text(&self.names, &name) {
            self.names.push(name);
            assert(self@.names =~= old(self)@.names.push(name@));
        }
    }

    /// Records a failed literal at `pos`, under its text in double quotes.
    pub fn note_literal(&mut self, pos: usize, text: &Vec<char>)
        ensures
            final(self)@ == old(self)@.note(pos as nat, literal_name(text@)),
    {
        if pos >= self.pos {
            let name = quoted(text);
            self.note(pos, name);
        }
    }

    /// Records a failed character class at `pos`.
    pub fn note_class(&mut self, pos: usize, class: &CharClass)
        ensures
            final(self)@ == old(self)@.note(pos as nat, class_name(class@)),
    {
        if pos >= self.pos {
            let name = describe(class);
            self.note(pos, name);
        }
    }

    /// Records a failed rule reference at `pos`.
    pub fn note_rule(&mut self, pos: usize, rule: &String)
        ensures
            final(self)@ == old(self)@.note(pos as nat, rule@),
    {
        if pos >= self.pos {
            self.note(pos, rule.clone());
        }
    }
}

/// The text in double quotes.
fn quoted(text: &Vec<char>) -> (name: String)
    ensures
        name@ == literal_name(text@),
{
    let mut name = String::new();
    name.push('"');
    push_chars(&mut name, text);
    name.push('"');
    name
}

/// The name of a character class.
fn describe(class: &CharClass) -> (name: String)
    ensures
        name@ == class_name(class@),
{
    match class {
        CharClass::Any => String::from_str("any character"),
        CharClass::Range(lo, hi) => {
            let mut name = String::new();
            name.push('\'');
            name.push(*lo);
            name.push('\'');
            name.append("..");
            name.push('\'');
            name.push(*hi);
            name.push('\'');
            name
        },
        CharClass::OneOf(chars) => {
            let mut name = String::from_str("one of ");
            let list = quoted(chars);
            name.append(list.as_str());
            name
        },
        CharClass::NoneOf(chars) => {
            let mut name = String::from_str("none of ");
            let list = quoted(chars);
            name.append(list.as_str());
            name
        },
    }
}

} // verus!
