//! Terms and triple patterns: what the premise and the conclusion of a rule
//! are made of.

use vstd::prelude::*;

verus! {

/// One position of a triple pattern: a free variable, by name, or a code
/// that the position is bound to.
#[derive(Debug, PartialEq, Eq)]
pub enum Term {
    Variable(String),
    Constant(u32),
}

impl Clone for Term {
    fn clone(&self) -> (copy: Term)
        ensures
            copy == *self,
    {
        match self {
            Term::Variable(name) => Term::Variable(name.clone()),
            Term::Constant(code) => Term::Constant(*code),
        }
    }
}

impl Term {
    /// Whether this term is the variable called `name`.
    pub open spec fn names(self, name: Seq<char>) -> bool {
        self matches Term::Variable(own) && own@ == name
    }

    /// Whether this term is the variable called `name`.
    pub fn is_variable(&self, name: &String) -> (yes: bool)
        ensures
            yes == self.names(name@),
    {
        match self {
            Term::Variable(own) => *own == *name,
            Term::Constant(_) => false,
        }
    }
}

/// A template over the three positions of a triple.
#[derive(Debug, PartialEq, Eq)]
pub struct TriplePattern {
    pub subject: Term,
    pub predicate: Term,
    pub object: Term,
}

impl Clone for TriplePattern {
    fn clone(&self) -> (copy: TriplePattern)
        ensures
            copy == *self,
    {
        TriplePattern {
            subject: self.subject.clone(),
            predicate: self.predicate.clone(),
            object: self.object.clone(),
        }
    }
}

impl TriplePattern {
    /// Whether the variable called `name` stands in one of the positions.
    pub open spec fn mentions(self, name: Seq<char>) -> bool {
        self.subject.names(name) || self.predicate.names(name) || self.object.names(name)
    }

    /// Whether the variable called `name` stands in one of the positions.
    pub fn has_variable(&self, name: &String) -> (yes: bool)
        ensures
            yes == self.mentions(name@),
    {
        self.subject.is_variable(name) || self.predicate.is_variable(name)
            || self.object.is_variable(name)
    }
}

} // verus!
