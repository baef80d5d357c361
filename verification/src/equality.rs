//! When two dictionaries are equal.
//!
//! Equality is that of content: two dictionaries are equal when they hold
//! the same two maps and the same counter, in whatever order their entries
//! were made.

use vstd::prelude::*;
use vstd::std_specs::cmp::PartialEqSpecImpl;
use vstd::std_specs::hash::spec_hash_map_iter;
use vstd::std_specs::iter::IteratorSpec;
use std::collections::HashMap;
use crate::dictionary::{texts, Dictionary};
use crate::entries::{as_map, find};

verus! {

/// Two maps that lie within one another are one map.
proof fn lemma_within_both_ways<K, V>(a: Map<K, V>, b: Map<K, V>)
    requires
        a.submap_of(b),
        b.submap_of(a),
    ensures
        a == b,
{
    assert forall|k: K| a.dom().contains(k) == b.dom().contains(k) by {}
    assert forall|k: K| a.dom().contains(k) implies a[k] == b[k] by {
        assert(b.dom().contains(k));
    }
    assert(a =~= b);
}

/// Whether every text that `ours` maps has the same code in `theirs`.
fn entries_within(ours: &Vec<(String, u32)>, theirs: &Vec<(String, u32)>) -> (yes: bool)
    ensures
        yes == as_map(ours@).submap_of(as_map(theirs@)),
{
    let mut i: usize = 0;
    while i < ours.len()
        invariant
            i <= ours.len(),
            forall|j: int|
                0 <= j < i ==> as_map(theirs@).contains_key((#[trigger] ours@[j]).0@) && as_map(
                    theirs@,
                )[ours@[j].0@] == as_map(ours@)[ours@[j].0@],
        decreases ours.len() - i,
    {
        let text = &ours[i].0;
        assert(as_map(ours@).dom().contains(text@));
        let same = match (find(ours, text), find(theirs, text)) {
            (Some(own), Some(other)) => own == other,
            _ => false,
        };
        if !same {
            assert(!as_map(ours@).submap_of(as_map(theirs@))) by {
                if as_map(theirs@).dom().contains(text@) {
                    assert(as_map(ours@)[text@] != as_map(theirs@)[text@]);
                }
            }
            return false;
        }
        i = i + 1;
    }
    assert forall|text: Seq<char>| as_map(ours@).dom().contains(text) implies as_map(
        theirs@,
    ).dom().contains(text) && as_map(ours@)[text] == as_map(theirs@)[text] by {
        let j = choose|j: int| 0 <= j < ours@.len() && (#[trigger] ours@[j]).0@ == text;
        assert(as_map(theirs@).contains_key(ours@[j].0@));
    }
    true
}

/// Whether every code that `ours` maps has the same text in `theirs`.
fn table_within(ours: &HashMap<u32, String>, theirs: &HashMap<u32, String>) -> (yes: bool)
    ensures
        yes == texts(ours@).submap_of(texts(theirs@)),
{
    for (id, text) in it: ours.iter()
        invariant
            it.seq() == spec_hash_map_iter(ours).remaining(),
            forall|j: int|
                0 <= j < it.index() ==> theirs@.contains_key(*(#[trigger] it.seq()[j]).0)
                    && theirs@[*it.seq()[j].0]@ == it.seq()[j].1@,
    {
        assert(ours@.contains_key(*id) && ours@[*id] == *text);
        assert(texts(ours@).dom().contains(*id));
        let same = match theirs.get(id) {
            Some(other) => *other == *text,
            None => false,
        };
        if !same {
            assert(!texts(ours@).submap_of(texts(theirs@))) by {
                if texts(theirs@).dom().contains(*id) {
                    assert(texts(ours@)[*id] != texts(theirs@)[*id]);
                }
            }
            return false;
        }
    }
    assert forall|id: u32| texts(ours@).dom().contains(id) implies texts(theirs@).dom().contains(
        id,
    ) && texts(ours@)[id] == texts(theirs@)[id] by {
        let seq = spec_hash_map_iter(ours).remaining();
        assert(seq.contains((&id, &ours@[id])));
        let j = choose|j: int| 0 <= j < seq.len() && seq[j] == (&id, &ours@[id]);
        assert(theirs@.contains_key(*seq[j].0));
    }
    true
}

impl PartialEq for Dictionary {
    fn eq(&self, other: &Dictionary) -> (same: bool) {
        let same = self.next_id == other.next_id && entries_within(
            &self.string_to_id,
            &other.string_to_id,
        ) && entries_within(&other.string_to_id, &self.string_to_id) && table_within(
            &self.id_to_string,
            &other.id_to_string,
        ) && table_within(&other.id_to_string, &self.id_to_string);
        proof {
            if same {
                lemma_within_both_ways(self@.forward, other@.forward);
                lemma_within_both_ways(self@.reverse, other@.reverse);
            }
        }
        same
    }
}

impl PartialEqSpecImpl for Dictionary {
    open spec fn obeys_eq_spec() -> bool {
        true
    }

    open spec fn eq_spec(&self, other: &Dictionary) -> bool {
        self@ == other@
    }
}

impl Eq for Dictionary {}

} // verus!
