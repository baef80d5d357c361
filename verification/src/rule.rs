//! Forward-chaining rules as plain data.
//!
//! A rule says: where the premise patterns all match known facts under one
//! binding of the variables, and the filters hold of that binding, the
//! conclusion patterns are facts too. Nothing here evaluates a rule; the
//! module holds the data and says when a rule is well formed.

use vstd::prelude::*;
use crate::terms::{Term, TriplePattern};

verus! {

/// A side condition on one variable of a rule. The operator is text that
/// the evaluator interprets; no operator is refused here.
#[derive(Debug)]
pub struct FilterCondition {
    /// The name of the variable that the filter constrains.
    pub variable: String,
    /// The comparison, as the evaluator spells it.
    pub operator: String,
    /// The literal that the variable is compared against.
    pub value: String,
}

/// An inference rule: premise, filters, conclusion.
#[derive(Debug)]
pub struct Rule {
    /// The patterns that must all match.
    pub premise: Vec<TriplePattern>,
    /// Further conditions on variables that the premise binds.
    pub filters: Vec<FilterCondition>,
    /// The patterns that are derived.
    pub conclusion: Vec<TriplePattern>,
}

impl Clone for FilterCondition {
    fn clone(&self) -> (copy: FilterCondition)
        ensures
            copy == *self,
    {
        FilterCondition {
            variable: self.variable.clone(),
            operator: self.operator.clone(),
            value: self.value.clone(),
        }
    }
}

/// A copy of a list of patterns, in the same order.
fn clone_patterns(patterns: &Vec<TriplePattern>) -> (copy: Vec<TriplePattern>)
    ensures
        copy@ == patterns@,
{
    let mut copy: Vec<TriplePattern> = Vec::new();
    let mut i: usize = 0;
    while i < patterns.len()
        invariant
            i <= patterns.len(),
            copy@ == patterns@.take(i as int),
        decreases patterns.len() - i,
    {
        copy.push(patterns[i].clone());
        assert(copy@ =~= patterns@.take(i + 1));
        i = i + 1;
    }
    assert(copy@ =~= patterns@);
    copy
}

impl Clone for Rule {
    /// A copy with the same premise, filters and conclusion, each in the
    /// same order.
    fn clone(&self) -> (copy: Rule)
        ensures
            copy.premise@ == self.premise@,
            copy.filters@ == self.filters@,
            copy.conclusion@ == self.conclusion@,
    {
        let mut filters: Vec<FilterCondition> = Vec::new();
        let mut i: usize = 0;
        while i < self.filters.len()
            invariant
                i <= self.filters.len(),
                filters@ == self.filters@.take(i as int),
            decreases self.filters.len() - i,
        {
            filters.push(self.filters[i].clone());
            assert(filters@ =~= self.filters@.take(i + 1));
            i = i + 1;
        }
        assert(filters@ =~= self.filters@);
        Rule {
            premise: clone_patterns(&self.premise),
            filters,
            conclusion: clone_patterns(&self.conclusion),
        }
    }
}

impl Rule {
    /// Whether some premise pattern mentions the variable called `name`.
    pub open spec fn binds(self, name: Seq<char>) -> bool {
        exists|i: int| 0 <= i < self.premise.len() && (#[trigger] self.premise[i]).mentions(name)
    }

    /// A rule is well formed if and only if the premise binds every
    /// variable of the filters and every variable of the conclusion.
    pub open spec fn well_formed(self) -> bool {
        &&& forall|i: int|
            0 <= i < self.filters.len() ==> self.binds((#[trigger] self.filters[i]).variable@)
        &&& forall|i: int, name: Seq<char>|
            0 <= i < self.conclusion.len() && (#[trigger] self.conclusion[i]).mentions(name)
                ==> #[trigger] self.binds(name)
    }

    /// Whether some premise pattern mentions the variable called `name`.
    pub fn is_bound(&self, name: &String) -> (yes: bool)
        ensures
            yes == self.binds(name@),
    {
        let mut i: usize = 0;
        while i < self.premise.len()
            invariant
                i <= self.premise.len(),
                forall|j: int| 0 <= j < i ==> !(#[trigger] self.premise[j]).mentions(name@),
            decreases self.premise.len() - i,
        {
            if self.premise[i].has_variable(name) {
                return true;
            }
            i = i + 1;
        }
        false
    }

    /// Whether `term` is a constant or a variable that the premise binds.
    fn covers(&self, term: &Term) -> (yes: bool)
        ensures
            yes == forall|name: Seq<char>| term.names(name) ==> self.binds(name),
    {
        match term {
            Term::Variable(own) => {
                let yes = self.is_bound(own);
                assert(term.names(own@));
                yes
            },
            Term::Constant(_) => true,
        }
    }

    /// Checks a rule before it is handed to an evaluator: `true` if and only
    /// if it is well formed.
    pub fn is_well_formed(&self) -> (yes: bool)
        ensures
            yes == self.well_formed(),
    {
        let mut i: usize = 0;
        while i < self.filters.len()
            invariant
                i <= self.filters.len(),
                forall|j: int| 0 <= j < i ==> self.binds((#[trigger] self.filters[j]).variable@),
            decreases self.filters.len() - i,
        {
            if !self.is_bound(&self.filters[i].variable) {
                return false;
            }
            i = i + 1;
        }
        let mut k: usize = 0;
        while k < self.conclusion.len()
            invariant
                k <= self.conclusion.len(),
                forall|j: int|
                    0 <= j < self.filters.len() ==> self.binds(
                        (#[trigger] self.filters[j]).variable@,
                    ),
                forall|j: int, name: Seq<char>|
                    0 <= j < k && (#[trigger] self.conclusion[j]).mentions(name)
                        ==> #[trigger] self.binds(name),
            decreases self.conclusion.len() - k,
        {
            let pattern = &self.conclusion[k];
            if !(self.covers(&pattern.subject) && self.covers(&pattern.predicate) && self.covers(
                &pattern.object,
            )) {
                assert(exists|name: Seq<char>|
                    self.conclusion[k as int].mentions(name) && !self.binds(name));
                return false;
            }
            k = k + 1;
        }
        true
    }
}

} // verus!
