//! The symbol dictionary: text to code and back.

use vstd::prelude::*;
use vstd::std_specs::hash::spec_hash_map_iter;
use vstd::std_specs::iter::IteratorSpec;
use vstd::string::StringExecFns;
use std::collections::HashMap;
use crate::entries::{as_map, distinct, find, lemma_push};
use crate::symbols::{lemma_merge_wf, Symbols};
use crate::triple::Triple;

verus! {

/// The texts that a code-keyed table holds, as plain sequences of characters.
pub open spec fn texts(table: Map<u32, String>) -> Map<u32, Seq<char>> {
    Map::new(|id: u32| table.contains_key(id), |id: u32| table[id]@)
}

/// A bidirectional dictionary between terms and the codes that stand for
/// them.
///
/// `string_to_id` is searched front to back, so the first entry for a text is
/// the one that counts. The fields are public: a dictionary is plain data,
/// and [`Dictionary::wf`] says when it is a consistent one.
#[derive(Debug)]
pub struct Dictionary {
    /// Text to code.
    pub string_to_id: Vec<(String, u32)>,
    /// Code to text.
    pub id_to_string: HashMap<u32, String>,
    /// The next code to hand out.
    pub next_id: u32,
}

impl View for Dictionary {
    type V = Symbols;

    open spec fn view(&self) -> Symbols {
        Symbols {
            forward: as_map(self.string_to_id@),
            reverse: texts(self.id_to_string@),
            next_id: self.next_id,
        }
    }
}

impl Default for Dictionary {
    /// The empty dictionary.
    fn default() -> (dict: Dictionary)
        ensures
            dict@ == Symbols::empty(),
    {
        Dictionary::new()
    }
}

impl Clone for Dictionary {
    /// A copy with the same entries in the same order, and the same counter.
    fn clone(&self) -> (copy: Dictionary)
        ensures
            copy.string_to_id@ == self.string_to_id@,
            copy.id_to_string@ == self.id_to_string@,
            copy.next_id == self.next_id,
            copy@ == self@,
    {
        let mut string_to_id: Vec<(String, u32)> = Vec::new();
        let mut i: usize = 0;
        while i < self.string_to_id.len()
            invariant
                i <= self.string_to_id.len(),
                string_to_id@ == self.string_to_id@.take(i as int),
            decreases self.string_to_id.len() - i,
        {
            string_to_id.push((self.string_to_id[i].0.clone(), self.string_to_id[i].1));
            assert(string_to_id@ =~= self.string_to_id@.take(i + 1));
            i = i + 1;
        }
        assert(string_to_id@ =~= self.string_to_id@);
        Dictionary { string_to_id, id_to_string: self.id_to_string.clone(), next_id: self.next_id }
    }
}

impl Dictionary {
    /// The invariant of a dictionary: no text is entered twice, the two maps
    /// are exact inverses of one another, and the counter lies above every
    /// code in use. `new` establishes it and `encode` keeps it; `merge` keeps
    /// it for dictionaries that agree.
    pub open spec fn wf(&self) -> bool {
        distinct(self.string_to_id@) && self@.wf()
    }

    /// An empty dictionary, counting from zero.
    pub fn new() -> (dict: Dictionary)
        ensures
            dict@ == Symbols::empty(),
            dict.wf(),
            dict@.dense(),
    {
        let dict = Dictionary {
            string_to_id: Vec::new(),
            id_to_string: HashMap::new(),
            next_id: 0,
        };
        assert(dict@ =~= Symbols::empty());
        dict
    }

    /// Returns the code of `value`, giving it the next unused code if it has
    /// none yet.
    ///
    /// A known text leaves the dictionary as it is. A new one is entered in
    /// both maps under the current counter, which then advances by one. The
    /// code space is finite: a new text needs a counter below `u32::MAX`.
    pub fn encode(&mut self, value: &str) -> (id: u32)
        requires
            old(self)@.can_encode(value@),
        ensures
            id == old(self)@.code_of(value@),
            final(self)@ == old(self)@.encode(value@),
            old(self).wf() ==> final(self).wf(),
            old(self)@.wf() ==> final(self)@.wf() && final(self)@.decode(id) == Some(value@),
            old(self)@.wf() && old(self)@.dense() ==> final(self)@.dense(),
    {
        let text = value.to_owned();
        match find(&self.string_to_id, &text) {
            Some(id) => id,
            None => {
                let id = self.next_id;
                proof {
                    lemma_push(self.string_to_id@, (text, id));
                }
                self.id_to_string.insert(id, text.clone());
                self.string_to_id.push((text, id));
                self.next_id = id + 1;
                assert(self@ =~= old(self)@.encode(value@));
                id
            },
        }
    }

    /// The text of `id`, or `None` where the dictionary has no entry for it.
    /// An unknown code is an ordinary outcome, not a failure.
    pub fn decode(&self, id: u32) -> (text: Option<&str>)
        ensures
            match text {
                Some(t) => self@.decode(id) == Some(t@),
                None => self@.decode(id) is None,
            },
    {
        match self.id_to_string.get(&id) {
            Some(text) => Some(text.as_str()),
            None => None,
        }
    }

    /// The text that stands for `id` in a rendered triple: its own, or
    /// `"unknown"` where it has none.
    fn term(&self, id: u32) -> (text: &str)
        ensures
            text@ == self@.term(id),
    {
        match self.decode(id) {
            Some(text) => text,
            None => "unknown",
        }
    }

    /// Renders a triple as a line of text: subject, predicate and object,
    /// separated by single spaces and closed by `" ."`. A position whose code
    /// has no entry reads `unknown`, so a triple that is only partly known
    /// can still be printed.
    pub fn decode_triple(&self, triple: &Triple) -> (line: String)
        ensures
            line@ == self@.render(*triple),
    {
        let mut line = self.term(triple.subject).to_owned();
        line.append(" ");
        line.append(self.term(triple.predicate));
        line.append(" ");
        line.append(self.term(triple.object));
        line.append(" .");
        line
    }

    /// Takes over the entries of `other` that `self` lacks.
    ///
    /// Each of the two maps keeps all that it held and gains the keys that
    /// only `other` has; where both have a key, the entry of `self` stays. The
    /// counter becomes the larger of the two. Codes are not renumbered, so
    /// the result is a consistent dictionary only where the two agree (see
    /// [`Symbols::agrees_with`]).
    pub fn merge(&mut self, other: &Dictionary)
        ensures
            final(self)@ == old(self)@.merge(other@),
            distinct(old(self).string_to_id@) ==> distinct(final(self).string_to_id@),
            old(self)@.wf() && other@.wf() && old(self)@.agrees_with(other@) ==> final(self)@.wf(),
    {
        let mut i: usize = 0;
        while i < other.string_to_id.len()
            invariant
                i <= other.string_to_id.len(),
                as_map(self.string_to_id@) == as_map(
                    other.string_to_id@.take(i as int),
                ).union_prefer_right(as_map(old(self).string_to_id@)),
                distinct(old(self).string_to_id@) ==> distinct(self.string_to_id@),
                self.id_to_string == old(self).id_to_string,
                self.next_id == old(self).next_id,
            decreases other.string_to_id.len() - i,
        {
            let text = &other.string_to_id[i].0;
            let id = other.string_to_id[i].1;
            proof {
                let seen = other.string_to_id@.take(i as int);
                assert(other.string_to_id@.take(i + 1) == seen.push(other.string_to_id@[i as int]));
                lemma_push(seen, other.string_to_id@[i as int]);
                lemma_push(self.string_to_id@, (*text, id));
            }
            if find(&self.string_to_id, text).is_none() {
                self.string_to_id.push((text.clone(), id));
            }
            i = i + 1;
        }
        assert(other.string_to_id@.take(i as int) == other.string_to_id@);

        for (id, text) in it: other.id_to_string.iter()
            invariant
                as_map(self.string_to_id@) == old(self)@.merge(other@).forward,
                distinct(old(self).string_to_id@) ==> distinct(self.string_to_id@),
                self.next_id == old(self).next_id,
                it.seq() == spec_hash_map_iter(&other.id_to_string).remaining(),
                forall|c: u32|
                    self.id_to_string@.contains_key(c) <==> old(self).id_to_string@.contains_key(c)
                        || exists|j: int| 0 <= j < it.index() && *(#[trigger] it.seq()[j]).0 == c,
                forall|c: u32| #[trigger]
                    self.id_to_string@.contains_key(c) ==> self.id_to_string@[c]@ == if old(
                        self,
                    ).id_to_string@.contains_key(c) {
                        old(self).id_to_string@[c]@
                    } else {
                        other.id_to_string@[c]@
                    },
        {
            self.id_to_string.entry(*id).or_insert(text.clone());
        }
        if other.next_id > self.next_id {
            self.next_id = other.next_id;
        }
        assert(self@ =~= old(self)@.merge(other@));
        proof {
            if old(self)@.wf() && other@.wf() && old(self)@.agrees_with(other@) {
                lemma_merge_wf(old(self)@, other@);
            }
        }
    }
}

} // verus!
