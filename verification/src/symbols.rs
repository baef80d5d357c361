//! The mathematical content of a dictionary, and what holds of it.
//!
//! A [`Symbols`] value is what a dictionary *is* once its storage is
//! forgotten: a map from text to code, a map from code to text, and the next
//! code to hand out. The operations of the executable dictionary are defined
//! here as functions on such values.

use vstd::prelude::*;
use crate::triple::Triple;

verus! {

/// The text that stands for a code without an entry when a triple is rendered.
pub open spec fn unknown_text() -> Seq<char> {
    "unknown"@
}

/// Two maps and a counter.
#[verifier::ext_equal]
pub struct Symbols {
    /// Text to code.
    pub forward: Map<Seq<char>, u32>,
    /// Code to text.
    pub reverse: Map<u32, Seq<char>>,
    /// The next code that `encode` hands out.
    pub next_id: u32,
}

impl Symbols {
    /// A dictionary without entries, counting from zero.
    pub open spec fn empty() -> Symbols {
        Symbols { forward: Map::empty(), reverse: Map::empty(), next_id: 0 }
    }

    /// Whether `text` has a code.
    pub open spec fn knows(self, text: Seq<char>) -> bool {
        self.forward.contains_key(text)
    }

    /// Whether `text` can be encoded: it has a code already, or the code
    /// space is not used up.
    pub open spec fn can_encode(self, text: Seq<char>) -> bool {
        self.knows(text) || self.next_id < u32::MAX
    }

    /// The code that encoding `text` returns.
    pub open spec fn code_of(self, text: Seq<char>) -> u32 {
        if self.knows(text) {
            self.forward[text]
        } else {
            self.next_id
        }
    }

    /// The dictionary after `text` was encoded: unchanged where the text is
    /// known, else with the entry for it in both maps and the counter advanced.
    pub open spec fn encode(self, text: Seq<char>) -> Symbols
        recommends
            self.can_encode(text),
    {
        if self.knows(text) {
            self
        } else {
            Symbols {
                forward: self.forward.insert(text, self.next_id),
                reverse: self.reverse.insert(self.next_id, text),
                next_id: (self.next_id + 1) as u32,
            }
        }
    }

    /// The text of `id`, if it has one.
    pub open spec fn decode(self, id: u32) -> Option<Seq<char>> {
        if self.reverse.contains_key(id) {
            Some(self.reverse[id])
        } else {
            None
        }
    }

    /// The text that stands for `id` in a rendered triple.
    pub open spec fn term(self, id: u32) -> Seq<char> {
        match self.decode(id) {
            Some(text) => text,
            None => unknown_text(),
        }
    }

    /// A triple as a line: its three terms, a space after each, then a period.
    pub open spec fn render(self, triple: Triple) -> Seq<char> {
        self.term(triple.subject) + " "@ + self.term(triple.predicate) + " "@ + self.term(
            triple.object,
        ) + " ."@
    }

    /// The union of two dictionaries in which `self` wins: each map keeps
    /// every entry of `self` and takes from `other` the keys that `self`
    /// lacks; the counter is the larger of the two.
    pub open spec fn merge(self, other: Symbols) -> Symbols {
        Symbols {
            forward: other.forward.union_prefer_right(self.forward),
            reverse: other.reverse.union_prefer_right(self.reverse),
            next_id: if self.next_id >= other.next_id {
                self.next_id
            } else {
                other.next_id
            },
        }
    }

    /// The two maps are exact inverses of one another.
    pub open spec fn inverse(self) -> bool {
        &&& forall|text: Seq<char>| #[trigger]
            self.forward.contains_key(text) ==> self.reverse.contains_key(self.forward[text])
                && self.reverse[self.forward[text]] == text
        &&& forall|id: u32| #[trigger]
            self.reverse.contains_key(id) ==> self.forward.contains_key(self.reverse[id])
                && self.forward[self.reverse[id]] == id
    }

    /// The counter lies above every code in use.
    pub open spec fn bounded(self) -> bool {
        forall|id: u32| #[trigger] self.reverse.contains_key(id) ==> id < self.next_id
    }

    /// The invariant of a dictionary: inverse maps, and a counter above them.
    pub open spec fn wf(self) -> bool {
        self.inverse() && self.bounded()
    }

    /// Every code below the counter is in use.
    pub open spec fn dense(self) -> bool {
        forall|id: u32| id < self.next_id ==> #[trigger] self.reverse.contains_key(id)
    }

    /// Whether the two dictionaries hold the same code for every text that
    /// both know, and the same text for every code that both use. Only such
    /// dictionaries merge into a consistent one.
    pub open spec fn agrees_with(self, other: Symbols) -> bool {
        &&& forall|text: Seq<char>|
            self.forward.contains_key(text) && other.forward.contains_key(text)
                ==> self.forward[text] == other.forward[text]
        &&& forall|id: u32|
            self.reverse.contains_key(id) && other.reverse.contains_key(id) ==> self.reverse[id]
                == other.reverse[id]
    }
}

/// Encoding keeps a dictionary consistent, and dense if it was.
pub proof fn lemma_encode_wf(dict: Symbols, text: Seq<char>)
    requires
        dict.wf(),
        dict.can_encode(text),
    ensures
        dict.encode(text).wf(),
        dict.dense() ==> dict.encode(text).dense(),
{
}

/// Encoding only adds: every entry that was there stays as it was, and the
/// counter does not fall.
pub proof fn lemma_encode_grows(dict: Symbols, text: Seq<char>)
    requires
        dict.wf(),
        dict.can_encode(text),
    ensures
        dict.forward.submap_of(dict.encode(text).forward),
        dict.reverse.submap_of(dict.encode(text).reverse),
        dict.next_id <= dict.encode(text).next_id,
{
}

/// Two different texts, encoded one after the other, get two different codes.
pub proof fn lemma_encode_distinct(dict: Symbols, first: Seq<char>, second: Seq<char>)
    requires
        dict.wf(),
        first != second,
        dict.can_encode(first),
        dict.encode(first).can_encode(second),
    ensures
        dict.code_of(first) != dict.encode(first).code_of(second),
{
    let after = dict.encode(first);
    assert(after.forward.contains_key(first));
    assert(after.reverse[dict.code_of(first)] == first);
}

/// In a consistent dictionary no two texts share a code.
pub proof fn lemma_codes_distinct(dict: Symbols, first: Seq<char>, second: Seq<char>)
    requires
        dict.wf(),
        dict.knows(first),
        dict.knows(second),
        first != second,
    ensures
        dict.forward[first] != dict.forward[second],
{
}

/// The code that encoding returns decodes to the text that was encoded.
pub proof fn lemma_decode_encode(dict: Symbols, text: Seq<char>)
    requires
        dict.wf(),
        dict.can_encode(text),
    ensures
        dict.encode(text).decode(dict.code_of(text)) == Some(text),
{
}

/// Encoding a text a second time returns the same code and changes nothing,
/// the counter included.
pub proof fn lemma_encode_idempotent(dict: Symbols, text: Seq<char>)
    requires
        dict.can_encode(text),
    ensures
        dict.encode(text).code_of(text) == dict.code_of(text),
        dict.encode(text).encode(text) == dict.encode(text),
        dict.encode(text).encode(text).next_id == dict.encode(text).next_id,
{
}

/// A merge loses nothing that `dict` held: its own entries win over those of
/// `other`, in both maps.
pub proof fn lemma_merge_keeps_own(dict: Symbols, other: Symbols)
    ensures
        dict.forward.submap_of(dict.merge(other).forward),
        dict.reverse.submap_of(dict.merge(other).reverse),
        forall|id: u32|
            dict.reverse.contains_key(id) ==> dict.merge(other).decode(id) == dict.decode(id),
{
}

/// A merge holds the keys of both, and for a key that only `other` has, what
/// `other` held; its counter is the larger of the two.
pub proof fn lemma_merge_union(dict: Symbols, other: Symbols)
    ensures
        dict.merge(other).forward.dom() == dict.forward.dom().union(other.forward.dom()),
        dict.merge(other).reverse.dom() == dict.reverse.dom().union(other.reverse.dom()),
        forall|text: Seq<char>|
            other.forward.contains_key(text) && !dict.forward.contains_key(text) ==> dict.merge(
                other,
            ).forward[text] == other.forward[text],
        forall|id: u32|
            other.reverse.contains_key(id) && !dict.reverse.contains_key(id) ==> dict.merge(
                other,
            ).reverse[id] == other.reverse[id],
        dict.merge(other).next_id >= dict.next_id,
        dict.merge(other).next_id >= other.next_id,
        dict.merge(other).next_id == dict.next_id || dict.merge(other).next_id == other.next_id,
{
    assert(dict.merge(other).forward.dom() =~= dict.forward.dom().union(other.forward.dom()));
    assert(dict.merge(other).reverse.dom() =~= dict.reverse.dom().union(other.reverse.dom()));
}

/// Two consistent dictionaries that agree merge into a consistent one.
pub proof fn lemma_merge_wf(dict: Symbols, other: Symbols)
    requires
        dict.wf(),
        other.wf(),
        dict.agrees_with(other),
    ensures
        dict.merge(other).wf(),
{
    let merged = dict.merge(other);
    assert forall|text: Seq<char>| #[trigger] merged.forward.contains_key(text) implies
        merged.reverse.contains_key(merged.forward[text])
        && merged.reverse[merged.forward[text]] == text by {
        if dict.forward.contains_key(text) {
            assert(dict.reverse.contains_key(dict.forward[text]));
        } else {
            assert(other.reverse.contains_key(other.forward[text]));
        }
    }
    assert forall|id: u32| #[trigger] merged.reverse.contains_key(id) implies
        merged.forward.contains_key(merged.reverse[id])
        && merged.forward[merged.reverse[id]] == id by {
        if dict.reverse.contains_key(id) {
            assert(dict.forward.contains_key(dict.reverse[id]));
        } else {
            assert(other.forward.contains_key(other.reverse[id]));
        }
    }
}

} // verus!
