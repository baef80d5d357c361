//! Text-to-code entries kept as a list.
//!
//! The hash-map specifications of `vstd` cover integer keys only, so the
//! dictionary keeps its text-keyed entries in a `Vec` and searches it front
//! to back. Such a list stands for a map in which the first entry for a text
//! decides its code; later entries for the same text are never seen.

use vstd::prelude::*;

verus! {

/// Whether some entry is for `text`.
pub open spec fn mentions(entries: Seq<(String, u32)>, text: Seq<char>) -> bool {
    exists|i: int| 0 <= i < entries.len() && (#[trigger] entries[i]).0@ == text
}

/// Whether no text has two entries.
pub open spec fn distinct(entries: Seq<(String, u32)>) -> bool {
    forall|i: int, j: int|
        0 <= i < j < entries.len() ==> (#[trigger] entries[i]).0@ != (#[trigger] entries[j]).0@
}

/// Whether entry `i` is the first one for `text`.
pub open spec fn is_first(entries: Seq<(String, u32)>, text: Seq<char>, i: int) -> bool {
    &&& 0 <= i < entries.len()
    &&& entries[i].0@ == text
    &&& forall|j: int| 0 <= j < i ==> (#[trigger] entries[j]).0@ != text
}

/// The index of the first entry for `text`.
pub open spec fn first_index(entries: Seq<(String, u32)>, text: Seq<char>) -> int {
    choose|i: int| is_first(entries, text, i)
}

/// The map that a list of entries stands for: every text that it mentions,
/// with the code of the first entry for it.
pub open spec fn as_map(entries: Seq<(String, u32)>) -> Map<Seq<char>, u32> {
    Map::new(
        |text: Seq<char>| mentions(entries, text),
        |text: Seq<char>| entries[first_index(entries, text)].1,
    )
}

/// A text with an entry at `i` has a first entry at or before `i`.
pub proof fn lemma_first_exists(entries: Seq<(String, u32)>, text: Seq<char>, i: int)
    requires
        0 <= i < entries.len(),
        entries[i].0@ == text,
    ensures
        is_first(entries, text, first_index(entries, text)),
        first_index(entries, text) <= i,
    decreases i,
{
    if exists|j: int| 0 <= j < i && (#[trigger] entries[j]).0@ == text {
        let j = choose|j: int| 0 <= j < i && (#[trigger] entries[j]).0@ == text;
        lemma_first_exists(entries, text, j);
    } else {
        assert(is_first(entries, text, i));
        let k = first_index(entries, text);
        if k > i {
            assert(entries[i].0@ == text);
        }
    }
}

/// The first entry for a text decides what the map holds for it.
pub proof fn lemma_first_decides(entries: Seq<(String, u32)>, text: Seq<char>, i: int)
    requires
        is_first(entries, text, i),
    ensures
        as_map(entries).contains_key(text),
        as_map(entries)[text] == entries[i].1,
        first_index(entries, text) == i,
{
    lemma_first_exists(entries, text, i);
    let k = first_index(entries, text);
    if k < i {
        assert(entries[k].0@ == text);
    }
}

/// An entry appended for a text that the list mentions changes nothing; one
/// for a new text adds that text with its code, and keeps a list without
/// repeated texts such a list.
pub proof fn lemma_push(entries: Seq<(String, u32)>, entry: (String, u32))
    ensures
        as_map(entries.push(entry)) == if mentions(entries, entry.0@) {
            as_map(entries)
        } else {
            as_map(entries).insert(entry.0@, entry.1)
        },
        distinct(entries) && !mentions(entries, entry.0@) ==> distinct(entries.push(entry)),
{
    let longer = entries.push(entry);
    let expected = if mentions(entries, entry.0@) {
        as_map(entries)
    } else {
        as_map(entries).insert(entry.0@, entry.1)
    };
    assert forall|text: Seq<char>| as_map(longer).contains_key(text) implies #[trigger]
        expected.contains_key(text) && expected[text] == as_map(longer)[text] by {
        let i = choose|i: int| 0 <= i < longer.len() && (#[trigger] longer[i]).0@ == text;
        lemma_first_exists(longer, text, i);
        let k = first_index(longer, text);
        if k < entries.len() {
            assert(entries[k].0@ == text);
            assert forall|j: int| 0 <= j < k implies (#[trigger] entries[j]).0@ != text by {
                assert(longer[j].0@ != text);
            }
            lemma_first_decides(entries, text, k);
        } else {
            assert(text == entry.0@);
            if mentions(entries, text) {
                let j = choose|j: int| 0 <= j < entries.len() && (#[trigger] entries[j]).0@ == text;
                assert(longer[j].0@ == text);
            }
        }
    }
    assert forall|text: Seq<char>| expected.contains_key(text) implies #[trigger] as_map(
        longer,
    ).contains_key(text) by {
        if mentions(entries, text) {
            let j = choose|j: int| 0 <= j < entries.len() && (#[trigger] entries[j]).0@ == text;
            assert(longer[j].0@ == text);
        } else {
            assert(longer[entries.len() as int].0@ == text);
        }
    }
    assert(as_map(longer) =~= expected);
}

/// Looks `text` up: the code of the first entry for it, if there is one.
pub fn find(entries: &Vec<(String, u32)>, text: &String) -> (code: Option<u32>)
    ensures
        code == if as_map(entries@).contains_key(text@) {
            Some(as_map(entries@)[text@])
        } else {
            None
        },
{
    let mut i: usize = 0;
    while i < entries.len()
        invariant
            i <= entries.len(),
            forall|j: int| 0 <= j < i ==> (#[trigger] entries@[j]).0@ != text@,
        decreases entries.len() - i,
    {
        if entries[i].0 == *text {
            proof {
                lemma_first_decides(entries@, text@, i as int);
            }
            return Some(entries[i].1);
        }
        i = i + 1;
    }
    None
}

} // verus!
