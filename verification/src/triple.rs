//! A fact: subject, predicate and object, each as a dictionary code.

use vstd::prelude::*;

verus! {

/// An encoded fact. Its codes have a meaning only relative to the dictionary
/// that produced them; the triple holds no reference to it.
#[derive(Clone, Copy, Debug, PartialEq, Eq, Structural)]
pub struct Triple {
    pub subject: u32,
    pub predicate: u32,
    pub object: u32,
}

} // verus!
