//! What holds of a dictionary after a whole sequence of encodings.
//!
//! A dictionary begins empty and grows by `encode` alone. The statements
//! here follow it through any such history: what its counter counts, which
//! codes decode, and why a dictionary merges safely with a later state of
//! itself.

use vstd::prelude::*;
use vstd::seq_lib::seq_to_set_is_finite;
use crate::symbols::{lemma_encode_grows, lemma_encode_wf, Symbols};

verus! {

impl Symbols {
    /// The dictionary after `texts` were encoded one after another.
    pub open spec fn encode_all(self, texts: Seq<Seq<char>>) -> Symbols
        decreases texts.len(),
    {
        if texts.len() == 0 {
            self
        } else {
            self.encode_all(texts.drop_last()).encode(texts.last())
        }
    }

    /// The code that the `i`-th of these encodings returns.
    pub open spec fn returned(self, texts: Seq<Seq<char>>, i: int) -> u32 {
        self.encode_all(texts.take(i)).code_of(texts[i])
    }

    /// Whether the code space suffices for each of these encodings in turn.
    pub open spec fn can_encode_all(self, texts: Seq<Seq<char>>) -> bool {
        forall|i: int|
            0 <= i < texts.len() ==> #[trigger] self.encode_all(texts.take(i)).can_encode(texts[i])
    }
}

/// What was encoded up to the last text is a history of its own.
proof fn lemma_shorter_history(dict: Symbols, texts: Seq<Seq<char>>)
    requires
        texts.len() > 0,
    ensures
        texts.take(texts.len() - 1) == texts.drop_last(),
        texts.to_set() == texts.drop_last().to_set().insert(texts.last()),
        forall|i: int|
            0 <= i < texts.len() - 1 ==> #[trigger] texts.drop_last().take(i) == texts.take(i),
        forall|i: int|
            0 <= i < texts.len() - 1 ==> #[trigger] dict.returned(texts.drop_last(), i)
                == dict.returned(texts, i),
        dict.can_encode_all(texts) ==> dict.can_encode_all(texts.drop_last()),
        dict.can_encode_all(texts) ==> dict.encode_all(texts.drop_last()).can_encode(texts.last()),
{
    let shorter = texts.drop_last();
    assert(texts.to_set() == shorter.to_set().insert(texts.last())) by {
        assert(texts =~= shorter.push(texts.last()));
        shorter.lemma_push_to_set_commute(texts.last());
    }
    assert forall|i: int| 0 <= i < shorter.len() implies #[trigger] shorter.take(i) == texts.take(
        i,
    ) by {
        assert(shorter.take(i) =~= texts.take(i));
    }
    if dict.can_encode_all(texts) {
        assert forall|i: int| 0 <= i < shorter.len() implies #[trigger] dict.encode_all(
            shorter.take(i),
        ).can_encode(shorter[i]) by {
            assert(dict.encode_all(texts.take(i)).can_encode(texts[i]));
        }
        assert(texts.take(texts.len() - 1) == shorter);
    }
}

/// A history of encodings keeps a dictionary consistent and only adds to it.
/// Afterwards every text of the history has the code that its encoding
/// returned, that code decodes to the text, and the codes in use are those
/// that were in use before and those that were returned.
pub proof fn lemma_encode_all(dict: Symbols, texts: Seq<Seq<char>>)
    requires
        dict.wf(),
        dict.can_encode_all(texts),
    ensures
        dict.encode_all(texts).wf(),
        dict.dense() ==> dict.encode_all(texts).dense(),
        dict.forward.submap_of(dict.encode_all(texts).forward),
        dict.reverse.submap_of(dict.encode_all(texts).reverse),
        dict.next_id <= dict.encode_all(texts).next_id,
        dict.encode_all(texts).forward.dom() == dict.forward.dom().union(texts.to_set()),
        forall|i: int|
            0 <= i < texts.len() ==> dict.encode_all(texts).forward[texts[i]]
                == #[trigger] dict.returned(texts, i),
        forall|i: int|
            0 <= i < texts.len() ==> dict.encode_all(texts).decode(
                #[trigger] dict.returned(texts, i),
            ) == Some(texts[i]),
        forall|id: u32| #[trigger]
            dict.encode_all(texts).reverse.contains_key(id) <==> dict.reverse.contains_key(id)
                || exists|i: int| 0 <= i < texts.len() && #[trigger] dict.returned(texts, i) == id,
    decreases texts.len(),
{
    if texts.len() > 0 {
        let shorter = texts.drop_last();
        let last = texts.last();
        let before = dict.encode_all(shorter);
        let after = before.encode(last);
        let n = texts.len() - 1;
        lemma_shorter_history(dict, texts);
        lemma_encode_all(dict, shorter);
        lemma_encode_wf(before, last);
        lemma_encode_grows(before, last);
        assert(dict.forward.submap_of(after.forward)) by {
            assert forall|text: Seq<char>| dict.forward.dom().contains(text) implies
                after.forward.dom().contains(text) && dict.forward[text] == after.forward[text] by {
                assert(before.forward.dom().contains(text));
            }
        }
        assert(dict.reverse.submap_of(after.reverse)) by {
            assert forall|id: u32| dict.reverse.dom().contains(id) implies
                after.reverse.dom().contains(id) && dict.reverse[id] == after.reverse[id] by {
                assert(before.reverse.dom().contains(id));
            }
        }
        assert forall|i: int| 0 <= i < texts.len() implies after.forward[texts[i]]
            == #[trigger] dict.returned(texts, i) && after.decode(dict.returned(texts, i)) == Some(
            texts[i],
        ) by {
            if i < n {
                assert(dict.returned(shorter, i) == dict.returned(texts, i));
                assert(before.forward.contains_key(shorter[i]));
            }
        }
        assert forall|id: u32| #[trigger]
            after.reverse.contains_key(id) <==> dict.reverse.contains_key(id) || exists|i: int|
                0 <= i < texts.len() && #[trigger] dict.returned(texts, i) == id by {
            if after.reverse.contains_key(id) && !before.reverse.contains_key(id) {
                assert(dict.returned(texts, n) == id);
            }
            if before.reverse.contains_key(id) && !dict.reverse.contains_key(id) {
                let i = choose|i: int|
                    0 <= i < shorter.len() && #[trigger] dict.returned(shorter, i) == id;
                assert(dict.returned(texts, i) == id);
            }
        }
    }
}

/// Within one history, two encodings return the same code if and only if
/// they were given the same text.
pub proof fn lemma_history_codes(dict: Symbols, texts: Seq<Seq<char>>, i: int, j: int)
    requires
        dict.wf(),
        dict.can_encode_all(texts),
        0 <= i < texts.len(),
        0 <= j < texts.len(),
    ensures
        dict.returned(texts, i) == dict.returned(texts, j) <==> texts[i] == texts[j],
{
    lemma_encode_all(dict, texts);
    let after = dict.encode_all(texts);
    assert(after.forward[texts[i]] == dict.returned(texts, i));
    assert(after.decode(dict.returned(texts, i)) == Some(texts[i]));
    assert(after.decode(dict.returned(texts, j)) == Some(texts[j]));
}

/// Starting from the empty dictionary, the counter counts the distinct texts
/// encoded so far, and these are the texts that the dictionary knows. The
/// code space bounds how many there can be.
pub proof fn lemma_counter_counts(texts: Seq<Seq<char>>)
    requires
        texts.to_set().len() <= u32::MAX,
    ensures
        Symbols::empty().can_encode_all(texts),
        Symbols::empty().encode_all(texts).next_id == texts.to_set().len(),
        Symbols::empty().encode_all(texts).forward.dom() == texts.to_set(),
    decreases texts.len(),
{
    let start = Symbols::empty();
    seq_to_set_is_finite(texts);
    if texts.len() == 0 {
        assert(texts.to_set() =~= Set::empty());
        assert(start.forward.dom() =~= texts.to_set());
    } else {
        let shorter = texts.drop_last();
        seq_to_set_is_finite(shorter);
        lemma_shorter_history(start, texts);
        lemma_counter_counts(shorter);
        assert forall|i: int| 0 <= i < texts.len() implies #[trigger] start.encode_all(
            texts.take(i),
        ).can_encode(texts[i]) by {
            if i < shorter.len() {
                assert(start.encode_all(shorter.take(i)).can_encode(shorter[i]));
            }
        }
    }
}

/// Starting from the empty dictionary, every code that an encoding returned
/// decodes to the text that was encoded, and no other code decodes at all.
pub proof fn lemma_decode_total(texts: Seq<Seq<char>>, id: u32)
    requires
        texts.to_set().len() <= u32::MAX,
    ensures
        forall|i: int|
            0 <= i < texts.len() ==> Symbols::empty().encode_all(texts).decode(
                #[trigger] Symbols::empty().returned(texts, i),
            ) == Some(texts[i]),
        Symbols::empty().encode_all(texts).decode(id) is Some <==> exists|i: int|
            0 <= i < texts.len() && #[trigger] Symbols::empty().returned(texts, i) == id,
{
    let start = Symbols::empty();
    lemma_counter_counts(texts);
    lemma_encode_all(start, texts);
    assert(start.encode_all(texts).decode(id) is Some <==> start.encode_all(
        texts,
    ).reverse.contains_key(id));
}

/// A dictionary and a later state of itself agree, and merging them, either
/// way round, gives the later state: this is the lineage within which a
/// merge is safe.
pub proof fn lemma_merge_extension(dict: Symbols, texts: Seq<Seq<char>>)
    requires
        dict.wf(),
        dict.can_encode_all(texts),
    ensures
        dict.agrees_with(dict.encode_all(texts)),
        dict.merge(dict.encode_all(texts)) == dict.encode_all(texts),
        dict.encode_all(texts).merge(dict) == dict.encode_all(texts),
{
    lemma_encode_all(dict, texts);
    let later = dict.encode_all(texts);
    assert forall|text: Seq<char>| dict.forward.contains_key(text) implies
        later.forward.contains_key(text) && later.forward[text] == dict.forward[text] by {
        assert(later.forward.dom().contains(text));
    }
    assert forall|id: u32| dict.reverse.contains_key(id) implies later.reverse.contains_key(id)
        && later.reverse[id] == dict.reverse[id] by {
        assert(later.reverse.dom().contains(id));
    }
    assert(dict.merge(later) =~= later);
    assert(later.merge(dict) =~= later);
}

} // verus!
